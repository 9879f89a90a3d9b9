//! Side effecting commands.
use vstd::prelude::*;

verus! {

/// Side effecting commands to be executed.
#[non_exhaustive]
pub struct Commands<Command> {
    /// Commands to be executed immediately after the model update.
    pub immediate: Vec<Command>,
    /// Commands to be executed after rendering.
    pub post_render: Vec<Command>,
}

impl<Command> Default for Commands<Command> {
    fn default() -> (r: Self)
        ensures
            r.immediate@ == Seq::<Command>::empty(),
            r.post_render@ == Seq::<Command>::empty(),
    {
        Commands { immediate: Vec::new(), post_render: Vec::new() }
    }
}

impl<Command> Commands<Command> {
    /// Add a command to be immediately executed after the model update.
    pub fn push(&mut self, cmd: Command)
        ensures
            final(self).immediate@ == old(self).immediate@.push(cmd),
            final(self).post_render@ == old(self).post_render@,
    {
        self.immediate.push(cmd);
    }

    /// Returns true if there are no commands stored in the structure.
    pub fn is_empty(&self) -> (r: bool)
        ensures
            r == (self.immediate@.len() == 0 && self.post_render@.len() == 0),
    {
        self.immediate.is_empty() && self.post_render.is_empty()
    }
}

} // verus!
