//! The bookkeeping of dispatching messages to an app: the messages waiting to be handled, and
//! the render that updates ask for.
use vstd::prelude::*;
use crate::app::side_effect::Commands;

verus! {

/// The messages dispatched to an app and not handled yet. A message dispatched while another is
/// being handled waits here; the most recently dispatched message is handled first.
pub struct MessageQueue<Message> {
    pending: Vec<Message>,
}

impl<Message> View for MessageQueue<Message> {
    type V = Seq<Message>;

    closed spec fn view(&self) -> Seq<Message> {
        self.pending@
    }
}

impl<Message> MessageQueue<Message> {
    /// No message waiting.
    pub fn new() -> (r: Self)
        ensures
            r@ == Seq::<Message>::empty(),
    {
        MessageQueue { pending: Vec::new() }
    }

    /// Queue a message.
    pub fn push(&mut self, msg: Message)
        ensures
            final(self)@ == old(self)@.push(msg),
    {
        self.pending.push(msg);
    }

    /// Take the most recently queued message, if any.
    pub fn pop(&mut self) -> (r: Option<Message>)
        ensures
            old(self)@.len() == 0 ==> r is None && final(self)@ == old(self)@,
            old(self)@.len() > 0 ==> r == Some(old(self)@.last()) && final(self)@
                == old(self)@.drop_last(),
    {
        self.pending.pop()
    }

    /// The number of messages waiting.
    pub fn len(&self) -> (r: usize)
        ensures
            r == self@.len(),
    {
        self.pending.len()
    }
}

/// The schedule after post-render commands `cmds` are added to schedule `s`: a scheduled render
/// collects them after those it has, otherwise a render is scheduled with them.
pub open spec fn scheduled_after<C>(s: Option<Seq<C>>, cmds: Seq<C>) -> Option<Seq<C>> {
    match s {
        Some(c) => Some(c + cmds),
        None => Some(cmds),
    }
}

/// The render that updates of an app ask for, with the commands to run once it is done. At
/// most one render is requested at a time: updates until it runs add their commands to it.
pub struct RenderSchedule<Command> {
    post_render: Option<Vec<Command>>,
}

impl<Command> View for RenderSchedule<Command> {
    type V = Option<Seq<Command>>;

    closed spec fn view(&self) -> Option<Seq<Command>> {
        match self.post_render {
            Some(v) => Some(v@),
            None => None,
        }
    }
}

impl<Command> RenderSchedule<Command> {
    /// No render scheduled.
    pub fn new() -> (r: Self)
        ensures
            r@ is None,
    {
        RenderSchedule { post_render: None }
    }

    /// Whether a render is scheduled.
    pub fn is_scheduled(&self) -> (r: bool)
        ensures
            r == self@ is Some,
    {
        self.post_render.is_some()
    }

    /// Add post-render commands; true when no render was scheduled, so one must be requested
    /// now.
    pub fn schedule(&mut self, cmds: Vec<Command>) -> (request: bool)
        ensures
            request == old(self)@ is None,
            final(self)@ == scheduled_after(old(self)@, cmds@),
    {
        match self.post_render.take() {
            Some(c) => {
                let mut c = c;
                let mut cmds = cmds;
                c.append(&mut cmds);
                self.post_render = Some(c);
                false
            },
            None => {
                self.post_render = Some(cmds);
                true
            },
        }
    }

    /// The render runs: take the commands to run after it, and clear the schedule.
    pub fn take(&mut self) -> (r: Vec<Command>)
        ensures
            r@ == match old(self)@ {
                Some(c) => c,
                None => Seq::<Command>::empty(),
            },
            final(self)@ is None,
    {
        match self.post_render.take() {
            Some(c) => c,
            None => Vec::new(),
        }
    }
}

/// Handle the commands of one update: the post-render commands go to the schedule, and the
/// immediate commands come back to be run now, with whether a render must be requested.
pub fn absorb<Command>(schedule: &mut RenderSchedule<Command>, commands: Commands<Command>) -> (r: (
    bool,
    Vec<Command>,
))
    ensures
        r.0 == old(schedule)@ is None,
        final(schedule)@ == scheduled_after(old(schedule)@, commands.post_render@),
        r.1@ == commands.immediate@,
{
    let Commands { immediate, post_render } = commands;
    let request = schedule.schedule(post_render);
    (request, immediate)
}

/// The post-render commands of the updates between two renders run after the one render they
/// share, in the order of the updates.
pub proof fn law_updates_share_one_render<C>(s: Option<Seq<C>>, c1: Seq<C>, c2: Seq<C>)
    ensures
        scheduled_after(scheduled_after(s, c1), c2) == scheduled_after(s, c1 + c2),
        scheduled_after(s, c1) is Some,
{
    if let Some(c) = s {
        assert(c + c1 + c2 =~= c + (c1 + c2));
    }
}

/// The commands of a series of updates, one after the other.
pub open spec fn all_commands<C>(qs: Seq<Seq<C>>) -> Seq<C>
    decreases qs.len(),
{
    if qs.len() == 0 {
        seq![]
    } else {
        all_commands(qs.drop_last()) + qs.last()
    }
}

/// The schedule after the updates whose post-render commands are `qs`, one after the other,
/// starting from the schedule `s`.
pub open spec fn scheduled_after_all<C>(s: Option<Seq<C>>, qs: Seq<Seq<C>>) -> Option<Seq<C>>
    decreases qs.len(),
{
    if qs.len() == 0 {
        s
    } else {
        scheduled_after(scheduled_after_all(s, qs.drop_last()), qs.last())
    }
}

/// How many of the updates whose post-render commands are `qs`, starting from the schedule
/// `s`, found no render scheduled and so asked for one.
pub open spec fn renders_requested<C>(s: Option<Seq<C>>, qs: Seq<Seq<C>>) -> nat
    decreases qs.len(),
{
    if qs.len() == 0 {
        0
    } else {
        renders_requested(s, qs.drop_last()) + if scheduled_after_all(s, qs.drop_last()) is None {
            1nat
        } else {
            0nat
        }
    }
}

/// Any number of updates between two renders: their post-render commands run after the one
/// render they share, in the order of the updates; a render is asked for exactly once when none
/// was scheduled before them, and not at all when one was.
pub proof fn law_updates_between_renders<C>(s: Option<Seq<C>>, qs: Seq<Seq<C>>)
    ensures
        qs.len() > 0 ==> scheduled_after_all(s, qs) == scheduled_after(s, all_commands(qs)),
        renders_requested(s, qs) == if s is None && qs.len() > 0 {
            1nat
        } else {
            0nat
        },
    decreases qs.len(),
{
    if qs.len() > 0 {
        let q0 = qs.drop_last();
        law_updates_between_renders(s, q0);
        if q0.len() == 0 {
            assert(all_commands(q0) =~= Seq::<C>::empty());
            assert(all_commands(qs) =~= qs.last());
        } else {
            law_updates_share_one_render(s, all_commands(q0), qs.last());
        }
    }
}

} // verus!
