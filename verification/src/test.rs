//! Test utilities.
use vstd::prelude::*;
use crate::app::model::Update;
use crate::app::side_effect::Commands;

verus! {

/// Test message.
pub type Msg = ();

/// Test command.
pub type Cmd = ();

/// Test key.
pub type Key = ();

/// Some helpers to make testing a model easier.
pub trait Model<Message, Command> {
    /// Update a model with the given message, and return the commands the update produced.
    ///
    /// Normally the `Commands` structure must be passed in to an update; this helper does that
    /// and returns the resulting `Commands` structure. It is only useful for unit testing.
    fn test_update(&mut self, msg: Message) -> Commands<Command>;
}

impl<Message, Command, M: Update<Message, Command>> Model<Message, Command> for M {
    fn test_update(&mut self, msg: Message) -> Commands<Command> {
        let mut cmds = Commands::default();
        Update::update(self, msg, &mut cmds);
        cmds
    }
}

} // verus!
