//! Planning how a [`PatchSet`] is applied to the browser's dom.
//!
//! Applying a patch set walks its patches once, keeping a stack of the nodes that are open and,
//! for each of them, the children that still wait to be attached. This module makes every
//! decision of that walk and writes them down as a list of [`Step`]s; the code that talks to the
//! browser carries the steps out one by one.
//!
//! Every step that stores something in the new storage (a node, a listener or the end of a
//! node) appends exactly one entry to it, so the entries are numbered in the order of the steps
//! that store them, and a step refers to a node by the number of the entry that holds it.
use std::collections::HashMap;
use vstd::prelude::*;
use crate::vdom::EventHandler;
use crate::patch::{Patch, PatchSet, keyed_view, works_on_node};
use crate::diff::to_deque;

verus! {

broadcast use {vstd::std_specs::hash::group_hash_axioms, vstd::std_specs::vecdeque::group_vec_dequeue_axioms};

/// A child waiting to be attached to a parent node.
#[derive(Debug, Clone, Copy, PartialEq, Eq)]
pub enum Child {
    /// The node held by the given entry of the new storage.
    Node(usize),
    /// The top level nodes of the component held by the given entry of the new storage, as
    /// noted when the component was stored.
    Nodes(usize),
}

/// One thing to do to the browser's dom, or to the new storage.
#[derive(Debug, PartialEq)]
pub enum Step<Message, S> {
    /// Remove the element held by the old storage entry from the dom.
    RemoveElement(S),
    /// Remove the text node held by the old storage entry from the given parent node.
    RemoveText {
        /// The old storage entry.
        take: S,
        /// The parent node.
        parent: usize,
    },
    /// Detach the component held by the old storage entry.
    RemoveComponent(S),
    /// Create an element of the given type and store it.
    CreateElement(String),
    /// Create a text node with the given text and store it.
    CreateText(String),
    /// Create a component, note its pending nodes, send it the message and store it.
    CreateComponent {
        /// The initial message to send to the component.
        msg: Message,
        /// The identifier of the function that creates the component.
        create: u64,
    },
    /// Store the old storage entry as it is.
    Keep(S),
    /// Set the text of the old text node and store it.
    ReplaceText {
        /// The old storage entry.
        take: S,
        /// The new text.
        text: String,
    },
    /// Send the message to the old component and store it.
    UpdateComponent {
        /// The old storage entry.
        take: S,
        /// The message to send.
        msg: Message,
    },
    /// Send the message to the old component, note its top level nodes and store it.
    MupdateComponent {
        /// The old storage entry.
        take: S,
        /// The message to send.
        msg: Message,
    },
    /// Note the top level nodes of the old component and store it.
    MoveComponent(S),
    /// Set the inner html of the node.
    SetInnerHtml {
        /// The node.
        node: usize,
        /// The html.
        html: String,
    },
    /// Remove all children of the node.
    UnsetInnerHtml {
        /// The node.
        node: usize,
    },
    /// Set an attribute of the node.
    SetAttribute {
        /// The node.
        node: usize,
        /// The attribute name.
        name: String,
        /// The attribute value.
        value: String,
    },
    /// Set an attribute that is set after everything else of its patch list (a boolean
    /// property, or the value of a form input).
    SetProperty {
        /// The node.
        node: usize,
        /// The attribute name.
        name: String,
        /// The attribute value.
        value: String,
    },
    /// Remove an attribute of the node.
    RemoveAttribute {
        /// The node.
        node: usize,
        /// The attribute name.
        name: String,
    },
    /// Add an event listener to the node and store it.
    AddListener {
        /// The node.
        node: usize,
        /// The trigger of the event.
        trigger: String,
        /// The handler of the event.
        handler: EventHandler<Message>,
    },
    /// Remove the old event listener from the node.
    RemoveListener {
        /// The node.
        node: usize,
        /// The trigger of the event.
        trigger: String,
        /// The old storage entry holding the listener.
        take: S,
    },
    /// Store the end of a node.
    StoreUp,
    /// Insert the child into the parent node, before the node `before`, or at the end.
    Insert {
        /// The parent node.
        parent: usize,
        /// The child.
        child: Child,
        /// The node to insert before, if any.
        before: Option<usize>,
    },
    /// Insert the child into the parent of `sibling`, before `sibling`.
    InsertBeside {
        /// The node to insert before.
        sibling: usize,
        /// The child.
        child: Child,
    },
}

/// Why a patch set cannot be applied.
#[derive(Debug, Clone, Copy, PartialEq, Eq)]
pub enum PlanError {
    /// A patch refers to a keyed patch list that does not exist, or was used already.
    MissingKey(u64),
    /// A patch works on the current node, but no node is open.
    NoParent,
    /// An `Up` patch closes a node, but no node is open.
    StrayUp,
    /// A patch list leaves nodes open.
    Unclosed,
}

/// What is known of the walk at one point: the open nodes, each with the children waiting to
/// be attached to it, and the children waiting at the top level.
#[verifier::ext_equal]
pub struct NodeStackView {
    /// The open nodes and their waiting children, innermost last.
    pub stack: Seq<(usize, Seq<Child>)>,
    /// The waiting top level children.
    pub pending: Seq<Child>,
}

impl NodeStackView {
    /// No open node, nothing waiting.
    pub open spec fn empty() -> NodeStackView {
        NodeStackView { stack: Seq::empty(), pending: Seq::empty() }
    }

    /// The innermost open node.
    pub open spec fn last(self) -> Option<usize> {
        if self.stack.len() > 0 {
            Some(self.stack.last().0)
        } else {
            None
        }
    }

    /// Add children waiting for the innermost open node, or for the top level.
    pub open spec fn push_children(self, cs: Seq<Child>) -> NodeStackView {
        if self.stack.len() > 0 {
            let top = self.stack.last();
            NodeStackView {
                stack: self.stack.drop_last().push((top.0, top.1 + cs)),
                pending: self.pending,
            }
        } else {
            NodeStackView { stack: self.stack, pending: self.pending + cs }
        }
    }

    /// Add a child waiting for the innermost open node, or for the top level.
    pub open spec fn push_child(self, c: Child) -> NodeStackView {
        self.push_children(seq![c])
    }

    /// Open a node.
    pub open spec fn push_parent(self, n: usize) -> NodeStackView {
        NodeStackView { stack: self.stack.push((n, Seq::empty())), pending: self.pending }
    }
}

/// Attach the children waiting for the innermost open node to it, before the node `before`,
/// or, with no open node, attach the waiting top level children beside `before`. With neither
/// an open node nor a node to insert before, there is nowhere to attach anything.
pub open spec fn inserts_before<M, S>(ns: NodeStackView, before: Option<usize>) -> Option<
    (NodeStackView, Seq<Step<M, S>>),
> {
    if ns.stack.len() > 0 {
        let top = ns.stack.last();
        Some(
            (
                NodeStackView {
                    stack: ns.stack.drop_last().push((top.0, Seq::empty())),
                    pending: ns.pending,
                },
                top.1.map_values(
                    |c: Child| Step::<M, S>::Insert { parent: top.0, child: c, before },
                ),
            ),
        )
    } else {
        match before {
            Some(sibling) => Some(
                (
                    NodeStackView { stack: ns.stack, pending: Seq::empty() },
                    ns.pending.map_values(|c: Child| Step::<M, S>::InsertBeside { sibling, child: c }),
                ),
            ),
            None => None,
        }
    }
}

/// Close the innermost open node, attaching the children that wait for it at its end.
pub open spec fn pop_node<M, S>(ns: NodeStackView) -> Option<(NodeStackView, Seq<Step<M, S>>)> {
    if ns.stack.len() > 0 {
        match inserts_before::<M, S>(ns, None) {
            Some((ns1, steps)) => Some(
                (NodeStackView { stack: ns1.stack.drop_last(), pending: ns1.pending }, steps),
            ),
            None => None,
        }
    } else {
        None
    }
}

/// The stack of open nodes of a walk.
pub struct NodeStack {
    stack: Vec<(usize, Vec<Child>)>,
    pending: Vec<Child>,
}

impl View for NodeStack {
    type V = NodeStackView;

    closed spec fn view(&self) -> NodeStackView {
        NodeStackView {
            stack: self.stack@.map_values(|e: (usize, Vec<Child>)| (e.0, e.1@)),
            pending: self.pending@,
        }
    }
}

impl NodeStack {
    /// No open node, nothing waiting.
    pub fn new() -> (r: Self)
        ensures
            r@ == NodeStackView::empty(),
    {
        let r = NodeStack { stack: Vec::new(), pending: Vec::new() };
        assert(r@.stack =~= Seq::<(usize, Seq<Child>)>::empty());
        r
    }

    /// The number of open nodes.
    pub fn depth(&self) -> (r: usize)
        ensures
            r == self@.stack.len(),
    {
        self.stack.len()
    }

    /// The innermost open node, if any.
    pub fn last(&self) -> (r: Option<usize>)
        ensures
            r == self@.last(),
    {
        let n = self.stack.len();
        if n > 0 {
            Some(self.stack[n - 1].0)
        } else {
            None
        }
    }

    /// Open a node.
    pub fn push_parent(&mut self, parent: usize)
        ensures
            final(self)@ == old(self)@.push_parent(parent),
    {
        self.stack.push((parent, Vec::new()));
        assert(self@.stack =~= old(self)@.push_parent(parent).stack);
    }

    /// Add a child waiting for the innermost open node, or for the top level.
    pub fn push_child(&mut self, child: Child)
        ensures
            final(self)@ == old(self)@.push_child(child),
    {
        match self.stack.pop() {
            Some(top) => {
                let (p, mut kids) = top;
                let ghost k0 = kids@;
                kids.push(child);
                self.stack.push((p, kids));
                assert(k0 + seq![child] =~= k0.push(child));
                assert(self@.stack =~= old(self)@.push_child(child).stack);
            },
            None => {
                self.pending.push(child);
                assert(old(self)@.pending + seq![child] =~= old(self)@.pending.push(child));
                assert(self@.stack =~= old(self)@.push_child(child).stack);
            },
        }
    }

    /// Add children waiting for the innermost open node, or for the top level, in order.
    pub fn push_children(&mut self, children: Vec<Child>)
        ensures
            final(self)@ == old(self)@.push_children(children@),
    {
        let mut j: usize = 0;
        while j < children.len()
            invariant
                j <= children@.len(),
                self@ == old(self)@.push_children(children@.take(j as int)),
            decreases children.len() - j,
        {
            let ghost before = self@;
            self.push_child(children[j]);
            proof {
                let a = children@.take(j as int);
                let b = children@.take(j + 1);
                assert(b =~= a.push(children@[j as int]));
                if old(self)@.stack.len() > 0 {
                    let top = old(self)@.stack.last();
                    assert(before.stack.last() == (top.0, top.1 + a));
                    assert(before.stack.drop_last() =~= old(self)@.stack.drop_last());
                    assert(top.1 + a + seq![children@[j as int]] =~= top.1 + b);
                    assert(self@.stack =~= old(self)@.push_children(b).stack);
                } else {
                    assert(old(self)@.pending + a + seq![children@[j as int]] =~= old(self)@.pending + b);
                }
                assert(self@ =~= old(self)@.push_children(b));
            }
            j = j + 1;
        }
        assert(children@.take(j as int) =~= children@);
    }

    /// Attach the children waiting for the innermost open node to it before `before`, or, with
    /// no open node, the waiting top level children beside `before`, writing the insertions to
    /// `out`. False when there is nowhere to attach them.
    pub fn insert_before<M, S>(&mut self, before: Option<usize>, out: &mut Vec<Step<M, S>>) -> (ok:
        bool)
        ensures
            match inserts_before::<M, S>(old(self)@, before) {
                Some((ns, steps)) => ok && final(self)@ == ns && final(out)@ == old(out)@ + steps,
                None => !ok && final(self)@ == old(self)@ && final(out)@ == old(out)@,
            },
    {
        match self.stack.pop() {
            Some(top) => {
                let (p, kids) = top;
                let ghost steps = kids@.map_values(
                    |c: Child| Step::<M, S>::Insert { parent: p, child: c, before },
                );
                let mut j: usize = 0;
                while j < kids.len()
                    invariant
                        j <= kids@.len(),
                        steps == kids@.map_values(
                            |c: Child| Step::<M, S>::Insert { parent: p, child: c, before },
                        ),
                        out@ == old(out)@ + steps.take(j as int),
                    decreases kids.len() - j,
                {
                    out.push(Step::Insert { parent: p, child: kids[j], before });
                    assert(steps.take(j + 1) =~= steps.take(j as int).push(steps[j as int]));
                    j = j + 1;
                }
                assert(steps.take(j as int) =~= steps);
                self.stack.push((p, Vec::new()));
                assert(self@.stack =~= old(self)@.stack.drop_last().push((p, Seq::empty())));
                true
            },
            None => {
                match before {
                    Some(sibling) => {
                        let ghost steps = self.pending@.map_values(
                            |c: Child| Step::<M, S>::InsertBeside { sibling, child: c },
                        );
                        let mut j: usize = 0;
                        while j < self.pending.len()
                            invariant
                                j <= self.pending@.len(),
                                self.pending@ == old(self)@.pending,
                                steps == self.pending@.map_values(
                                    |c: Child| Step::<M, S>::InsertBeside { sibling, child: c },
                                ),
                                out@ == old(out)@ + steps.take(j as int),
                            decreases self.pending.len() - j,
                        {
                            out.push(Step::InsertBeside { sibling, child: self.pending[j] });
                            assert(steps.take(j + 1) =~= steps.take(j as int).push(
                                steps[j as int],
                            ));
                            j = j + 1;
                        }
                        assert(steps.take(j as int) =~= steps);
                        self.pending = Vec::new();
                        assert(self@.pending =~= Seq::<Child>::empty());
                        true
                    },
                    None => {
                        assert(out@ =~= old(out)@);
                        false
                    },
                }
            },
        }
    }

    /// Close the innermost open node, attaching the children that wait for it at its end,
    /// writing the insertions to `out`. False when no node is open.
    pub fn pop<M, S>(&mut self, out: &mut Vec<Step<M, S>>) -> (ok: bool)
        ensures
            match pop_node::<M, S>(old(self)@) {
                Some((ns, steps)) => ok && final(self)@ == ns && final(out)@ == old(out)@ + steps,
                None => !ok && final(self)@ == old(self)@ && final(out)@ == old(out)@,
            },
    {
        if self.stack.len() == 0 {
            return false;
        }
        let ok = self.insert_before(None, out);
        let _ = self.stack.pop();
        assert(self@.stack =~= inserts_before::<M, S>(old(self)@, None).unwrap().0.stack.drop_last());
        ok
    }

    /// Take the waiting top level children.
    pub fn pop_pending(&mut self) -> (r: Vec<Child>)
        ensures
            r@ == old(self)@.pending,
            final(self)@ == (NodeStackView { stack: old(self)@.stack, pending: Seq::empty() }),
    {
        let mut pending = Vec::new();
        std::mem::swap(&mut self.pending, &mut pending);
        assert(self@.pending =~= Seq::<Child>::empty());
        pending
    }
}


/// The attributes that are set after everything else of their patch list: setting them early
/// can be undone by the browser (an input's `value` set before its `max`, say).
pub open spec fn is_deferred_attr(name: Seq<char>) -> bool {
    ||| name == "autofocus"@
    ||| name == "checked"@
    ||| name == "disabled"@
    ||| name == "draggable"@
    ||| name == "hidden"@
    ||| name == "selected"@
    ||| name == "spellcheck"@
    ||| name == "value"@
}

/// Decide whether an attribute is set after everything else of its patch list.
pub fn is_deferred_attribute(name: &String) -> (r: bool)
    ensures
        r == is_deferred_attr(name@),
{
    *name == "autofocus".to_owned() || *name == "checked".to_owned() || *name
        == "disabled".to_owned() || *name == "draggable".to_owned() || *name
        == "hidden".to_owned() || *name == "selected".to_owned() || *name
        == "spellcheck".to_owned() || *name == "value".to_owned()
}

/// The boolean property value that setting the attribute `name` to `value` stands for: `"true"`
/// and `"false"` stand for themselves, and a value equal to the name (as in
/// `checked="checked"`) for true; any other value stands for none.
pub open spec fn flag_value(name: Seq<char>, value: Seq<char>) -> Option<bool> {
    if value == "true"@ {
        Some(true)
    } else if value == "false"@ {
        Some(false)
    } else if value == name {
        Some(true)
    } else {
        None
    }
}

/// Decide the boolean property value that setting the attribute `name` to `value` stands for.
pub fn flag_of(name: &String, value: &String) -> (r: Option<bool>)
    ensures
        r == flag_value(name@, value@),
{
    if *value == "true".to_owned() {
        Some(true)
    } else if *value == "false".to_owned() {
        Some(false)
    } else if *value == *name {
        Some(true)
    } else {
        None
    }
}

/// The state of the walk over one patch list: the open nodes, the attribute settings put off
/// until the end of the list, the keyed patch lists not used yet, and the number of entries
/// stored so far.
#[verifier::ext_equal]
pub struct PlanState<M, S> {
    /// The open nodes and waiting children.
    pub ns: NodeStackView,
    /// The attribute settings put off until the end of the list.
    pub deferred: Seq<Step<M, S>>,
    /// The keyed patch lists not used yet.
    pub keyed: Map<u64, Seq<Patch<M, S>>>,
    /// The number of entries stored so far, which is also the number of the next one.
    pub next: nat,
}

/// What the walk over a patch list gives: its steps, the keyed patch lists left, the children
/// left waiting at the top level, and the number of entries stored after it.
#[verifier::ext_equal]
pub struct PlanOut<M, S> {
    /// The steps.
    pub steps: Seq<Step<M, S>>,
    /// The keyed patch lists not used.
    pub keyed: Map<u64, Seq<Patch<M, S>>>,
    /// The children waiting at the top level.
    pub pending: Seq<Child>,
    /// The number of entries stored after the walk.
    pub next: nat,
}

impl<M, S> PlanState<M, S> {
    /// The start of the walk over a patch list.
    pub open spec fn start(keyed: Map<u64, Seq<Patch<M, S>>>, next: nat) -> PlanState<M, S> {
        PlanState { ns: NodeStackView::empty(), deferred: Seq::empty(), keyed, next }
    }

    /// One more entry was stored.
    pub open spec fn stored(self) -> PlanState<M, S> {
        PlanState { ns: self.ns, deferred: self.deferred, keyed: self.keyed, next: self.next + 1 }
    }

    /// The node (or the nodes of the component) stored next waits as a child, and is the
    /// innermost open node.
    pub open spec fn open_child(self, c: Child) -> PlanState<M, S> {
        PlanState {
            ns: self.ns.push_child(c).push_parent(self.next as usize),
            deferred: self.deferred,
            keyed: self.keyed,
            next: self.next + 1,
        }
    }

    /// `step` stores a node that stays where it is: the children waiting are attached before
    /// it, and it is the innermost open node.
    pub open spec fn open_in_place(self, step: Step<M, S>) -> (PlanState<M, S>, Seq<Step<M, S>>) {
        let k = self.next as usize;
        let (ns1, ins) = inserts_before::<M, S>(self.ns, Some(k)).unwrap();
        (
            PlanState {
                ns: ns1.push_parent(k),
                deferred: self.deferred,
                keyed: self.keyed,
                next: self.next + 1,
            },
            seq![step] + ins,
        )
    }
}

/// The steps of a patch that works on the innermost open node `n`, and the state after it.
pub open spec fn plan_on_node<M, S>(p: Patch<M, S>, st: PlanState<M, S>, n: usize) -> (
    PlanState<M, S>,
    Seq<Step<M, S>>,
) {
    match p {
        Patch::RemoveText(s) => (st, seq![Step::RemoveText { take: s, parent: n }]),
        Patch::SetInnerHtml(html) => (st, seq![Step::SetInnerHtml { node: n, html }]),
        Patch::UnsetInnerHtml => (st, seq![Step::UnsetInnerHtml { node: n }]),
        Patch::SetAttribute { name, value } => if is_deferred_attr(name@) {
            (
                PlanState {
                    ns: st.ns,
                    deferred: st.deferred.push(Step::SetProperty { node: n, name, value }),
                    keyed: st.keyed,
                    next: st.next,
                },
                Seq::empty(),
            )
        } else {
            (st, seq![Step::SetAttribute { node: n, name, value }])
        },
        Patch::RemoveAttribute(name) => (st, seq![Step::RemoveAttribute { node: n, name }]),
        Patch::AddListener { trigger, handler } => (
            st.stored(),
            seq![Step::AddListener { node: n, trigger, handler }],
        ),
        Patch::RemoveListener { trigger, take } => (
            st,
            seq![Step::RemoveListener { node: n, trigger, take }],
        ),
        _ => (st, Seq::empty()),
    }
}

/// The steps of one patch, and the state after it. `fuel` bounds how deep keyed patch lists
/// may nest; each use of a keyed list removes it, so the number of keyed lists is enough.
pub open spec fn plan_patch<M, S>(p: Patch<M, S>, st: PlanState<M, S>, fuel: nat) -> Result<
    (PlanState<M, S>, Seq<Step<M, S>>),
    PlanError,
>
    decreases fuel, 0int,
{
    let k = st.next as usize;
    if works_on_node(p) {
        match st.ns.last() {
            Some(n) => Ok(plan_on_node(p, st, n)),
            None => Err(PlanError::NoParent),
        }
    } else {
        match p {
            Patch::ReferenceKey(key) => if st.keyed.contains_key(key) && fuel > 0 {
                match plan_list(st.keyed[key], st.keyed.remove(key), (fuel - 1) as nat, st.next) {
                    Ok(o) => Ok(
                        (
                            PlanState {
                                ns: st.ns.push_children(o.pending),
                                deferred: st.deferred,
                                keyed: o.keyed,
                                next: o.next,
                            },
                            o.steps,
                        ),
                    ),
                    Err(e) => Err(e),
                }
            } else {
                Err(PlanError::MissingKey(key))
            },
            Patch::RemoveElement(s) => Ok((st, seq![Step::RemoveElement(s)])),
            Patch::CreateElement { element } => Ok(
                (st.open_child(Child::Node(k)), seq![Step::CreateElement(element)]),
            ),
            Patch::CopyElement(s) => Ok(st.open_in_place(Step::Keep(s))),
            Patch::MoveElement(s) => Ok((st.open_child(Child::Node(k)), seq![Step::Keep(s)])),
            Patch::ReplaceText { take, text } => Ok(
                st.open_in_place(Step::ReplaceText { take, text }),
            ),
            Patch::CreateText { text } => Ok(
                (st.open_child(Child::Node(k)), seq![Step::CreateText(text)]),
            ),
            Patch::CopyText(s) => Ok(st.open_in_place(Step::Keep(s))),
            Patch::CreateComponent { msg, create } => Ok(
                (st.open_child(Child::Nodes(k)), seq![Step::CreateComponent { msg, create }]),
            ),
            Patch::CopyComponent(s) => Ok(st.open_in_place(Step::Keep(s))),
            Patch::MoveComponent(s) => Ok(
                (st.open_child(Child::Nodes(k)), seq![Step::MoveComponent(s)]),
            ),
            Patch::UpdateComponent { take, msg } => Ok(
                st.open_in_place(Step::UpdateComponent { take, msg }),
            ),
            Patch::MupdateComponent { take, msg } => Ok(
                (st.open_child(Child::Nodes(k)), seq![Step::MupdateComponent { take, msg }]),
            ),
            Patch::RemoveComponent(s) => Ok((st, seq![Step::RemoveComponent(s)])),
            Patch::CopyListener(s) => Ok((st.stored(), seq![Step::Keep(s)])),
            Patch::Up => match pop_node::<M, S>(st.ns) {
                Some((ns1, ins)) => Ok(
                    (
                        PlanState {
                            ns: ns1,
                            deferred: st.deferred,
                            keyed: st.keyed,
                            next: st.next + 1,
                        },
                        ins.push(Step::StoreUp),
                    ),
                ),
                None => Err(PlanError::StrayUp),
            },
            _ => Err(PlanError::NoParent),
        }
    }
}

/// The end of the walk over a patch list: the settings put off come last, and no node may be
/// left open.
pub open spec fn finish_list<M, S>(st: PlanState<M, S>) -> Result<PlanOut<M, S>, PlanError> {
    if st.ns.stack.len() != 0 {
        Err(PlanError::Unclosed)
    } else {
        Ok(PlanOut { steps: st.deferred, keyed: st.keyed, pending: st.ns.pending, next: st.next })
    }
}

/// The walk over the patches of `ps` from the `i`-th on.
pub open spec fn plan_from<M, S>(ps: Seq<Patch<M, S>>, i: int, st: PlanState<M, S>, fuel: nat) -> Result<
    PlanOut<M, S>,
    PlanError,
>
    decreases fuel, ps.len() - i + 1,
{
    if 0 <= i < ps.len() {
        match plan_patch(ps[i], st, fuel) {
            Ok((st1, s1)) => prepend_steps(s1, plan_from(ps, i + 1, st1, fuel)),
            Err(e) => Err(e),
        }
    } else {
        finish_list(st)
    }
}

/// The walk over a whole patch list, with a fresh stack of open nodes.
pub open spec fn plan_list<M, S>(
    ps: Seq<Patch<M, S>>,
    keyed: Map<u64, Seq<Patch<M, S>>>,
    fuel: nat,
    next: nat,
) -> Result<PlanOut<M, S>, PlanError>
    decreases fuel, ps.len() + 2,
{
    plan_from(ps, 0, PlanState::start(keyed, next), fuel)
}

/// Steps `s` come before those of the walk `r`.
pub open spec fn prepend_steps<M, S>(s: Seq<Step<M, S>>, r: Result<PlanOut<M, S>, PlanError>) -> Result<
    PlanOut<M, S>,
    PlanError,
> {
    match r {
        Ok(o) => Ok(PlanOut { steps: s + o.steps, keyed: o.keyed, pending: o.pending, next: o.next }),
        Err(e) => Err(e),
    }
}

proof fn lemma_prepend_empty<M, S>(r: Result<PlanOut<M, S>, PlanError>)
    ensures
        prepend_steps(Seq::empty(), r) == r,
{
    if let Ok(o) = r {
        assert(Seq::<Step<M, S>>::empty() + o.steps =~= o.steps);
        assert(prepend_steps(Seq::empty(), r)->Ok_0 =~= o);
    }
}

proof fn lemma_prepend_twice<M, S>(a: Seq<Step<M, S>>, b: Seq<Step<M, S>>, r: Result<PlanOut<M, S>, PlanError>)
    ensures
        prepend_steps(a, prepend_steps(b, r)) == prepend_steps(a + b, r),
{
    if let Ok(o) = r {
        assert(a + (b + o.steps) =~= (a + b) + o.steps);
        assert(prepend_steps(a, prepend_steps(b, r))->Ok_0 =~= prepend_steps(a + b, r)->Ok_0);
    }
}


/// Store an entry by the given step.
fn store_step<M, S>(step: Step<M, S>, next: &mut usize, out: &mut Vec<Step<M, S>>)
    requires
        *old(next) <= old(out)@.len(),
    ensures
        final(out)@ == old(out)@.push(step),
        *final(next) == *old(next) + 1,
        *final(next) <= final(out)@.len(),
{
    out.push(step);
    let n = out.len();
    *next = *next + 1;
}

/// The abstract state of the walk over one patch list.
pub open spec fn state_of<M, S>(
    ns: NodeStackView,
    deferred: Seq<Step<M, S>>,
    keyed: Map<u64, Vec<Patch<M, S>>>,
    next: usize,
) -> PlanState<M, S> {
    PlanState { ns, deferred, keyed: keyed_view(keyed), next: next as nat }
}

/// Carry out the decisions of one patch: steps go to `out`, settings put off go to `deferred`.
fn plan_patch_exec<M, S>(
    p: Patch<M, S>,
    ns: &mut NodeStack,
    deferred: &mut Vec<Step<M, S>>,
    keyed: &mut HashMap<u64, Vec<Patch<M, S>>>,
    fuel: usize,
    next: &mut usize,
    out: &mut Vec<Step<M, S>>,
) -> (r: Result<(), PlanError>)
    requires
        *old(next) <= old(out)@.len(),
    ensures
        *final(next) <= final(out)@.len(),
        ({
            let sp = plan_patch(
                p,
                state_of(old(ns)@, old(deferred)@, old(keyed)@, *old(next)),
                fuel as nat,
            );
            match r {
                Ok(_) => {
                    &&& sp is Ok
                    &&& sp->Ok_0.0 == state_of(final(ns)@, final(deferred)@, final(keyed)@, *final(next))
                    &&& final(out)@ == old(out)@ + sp->Ok_0.1
                },
                Err(e) => sp == Err::<(PlanState<M, S>, Seq<Step<M, S>>), PlanError>(e),
            }
        }),
    decreases fuel, 0usize,
{
    let ghost st = state_of(ns@, deferred@, keyed@, *next);
    let k = *next;
    if patch_works_on_node(&p) {
        let n = match ns.last() {
            Some(n) => n,
            None => {
                return Err(PlanError::NoParent);
            },
        };
        match p {
            Patch::RemoveText(s) => {
                out.push(Step::RemoveText { take: s, parent: n });
            },
            Patch::SetInnerHtml(html) => {
                out.push(Step::SetInnerHtml { node: n, html });
            },
            Patch::UnsetInnerHtml => {
                out.push(Step::UnsetInnerHtml { node: n });
            },
            Patch::SetAttribute { name, value } => {
                if is_deferred_attribute(&name) {
                    deferred.push(Step::SetProperty { node: n, name, value });
                    assert(old(out)@ + Seq::<Step<M, S>>::empty() =~= old(out)@);
                } else {
                    out.push(Step::SetAttribute { node: n, name, value });
                }
            },
            Patch::RemoveAttribute(name) => {
                out.push(Step::RemoveAttribute { node: n, name });
            },
            Patch::AddListener { trigger, handler } => {
                store_step(Step::AddListener { node: n, trigger, handler }, next, out);
            },
            Patch::RemoveListener { trigger, take } => {
                out.push(Step::RemoveListener { node: n, trigger, take });
            },
            _ => {},
        }
        proof {
            let (st1, s1) = plan_on_node(p, st, n);
            assert(out@ =~= old(out)@ + s1);
        }
        return Ok(());
    }
    match p {
        Patch::ReferenceKey(key) => {
            if fuel == 0 {
                return Err(PlanError::MissingKey(key));
            }
            match keyed.remove(&key) {
                Some(sub) => {
                    assert(keyed_view(keyed@) =~= st.keyed.remove(key));
                    match plan_list_exec(sub, keyed, fuel - 1, next, out) {
                        Ok(kids) => {
                            ns.push_children(kids);
                        },
                        Err(e) => {
                            return Err(e);
                        },
                    }
                },
                None => {
                    return Err(PlanError::MissingKey(key));
                },
            }
        },
        Patch::RemoveElement(s) => {
            out.push(Step::RemoveElement(s));
        },
        Patch::CreateElement { element } => {
            store_step(Step::CreateElement(element), next, out);
            ns.push_child(Child::Node(k));
            ns.push_parent(k);
        },
        Patch::CopyElement(s) => {
            open_in_place_exec(Step::Keep(s), ns, next, out);
        },
        Patch::MoveElement(s) => {
            store_step(Step::Keep(s), next, out);
            ns.push_child(Child::Node(k));
            ns.push_parent(k);
        },
        Patch::ReplaceText { take, text } => {
            open_in_place_exec(Step::ReplaceText { take, text }, ns, next, out);
        },
        Patch::CreateText { text } => {
            store_step(Step::CreateText(text), next, out);
            ns.push_child(Child::Node(k));
            ns.push_parent(k);
        },
        Patch::CopyText(s) => {
            open_in_place_exec(Step::Keep(s), ns, next, out);
        },
        Patch::CreateComponent { msg, create } => {
            store_step(Step::CreateComponent { msg, create }, next, out);
            ns.push_child(Child::Nodes(k));
            ns.push_parent(k);
        },
        Patch::CopyComponent(s) => {
            open_in_place_exec(Step::Keep(s), ns, next, out);
        },
        Patch::MoveComponent(s) => {
            store_step(Step::MoveComponent(s), next, out);
            ns.push_child(Child::Nodes(k));
            ns.push_parent(k);
        },
        Patch::UpdateComponent { take, msg } => {
            open_in_place_exec(Step::UpdateComponent { take, msg }, ns, next, out);
        },
        Patch::MupdateComponent { take, msg } => {
            store_step(Step::MupdateComponent { take, msg }, next, out);
            ns.push_child(Child::Nodes(k));
            ns.push_parent(k);
        },
        Patch::RemoveComponent(s) => {
            out.push(Step::RemoveComponent(s));
        },
        Patch::CopyListener(s) => {
            store_step(Step::Keep(s), next, out);
        },
        Patch::Up => {
            if !ns.pop(out) {
                return Err(PlanError::StrayUp);
            }
            store_step(Step::StoreUp, next, out);
        },
        _ => {},
    }
    proof {
        let (st1, s1) = plan_patch(p, st, fuel as nat)->Ok_0;
        assert(out@ =~= old(out)@ + s1);
        assert(state_of(ns@, deferred@, keyed@, *next) =~= st1);
    }
    Ok(())
}

/// Decide whether a patch works on the innermost open node.
fn patch_works_on_node<M, S>(p: &Patch<M, S>) -> (r: bool)
    ensures
        r == works_on_node(*p),
{
    match p {
        Patch::RemoveText(_) | Patch::SetInnerHtml(_) | Patch::UnsetInnerHtml
        | Patch::SetAttribute { .. } | Patch::RemoveAttribute(_) | Patch::AddListener { .. }
        | Patch::RemoveListener { .. } => true,
        _ => false,
    }
}

/// Store a node that stays where it is: the children waiting are attached before it, and it
/// becomes the innermost open node.
fn open_in_place_exec<M, S>(
    step: Step<M, S>,
    ns: &mut NodeStack,
    next: &mut usize,
    out: &mut Vec<Step<M, S>>,
)
    requires
        *old(next) <= old(out)@.len(),
    ensures
        ({
            let (st1, s1) = PlanState::<M, S> {
                ns: old(ns)@,
                deferred: Seq::empty(),
                keyed: Map::empty(),
                next: *old(next) as nat,
            }.open_in_place(step);
            &&& final(ns)@ == st1.ns
            &&& *final(next) == st1.next
            &&& final(out)@ == old(out)@ + s1
        }),
        *final(next) <= final(out)@.len(),
{
    let k = *next;
    store_step(step, next, out);
    let ghost mid = out@;
    let _ = ns.insert_before(Some(k), out);
    ns.push_parent(k);
    proof {
        let (ns1, ins) = inserts_before::<M, S>(old(ns)@, Some(k)).unwrap();
        assert(out@ =~= old(out)@ + (seq![step] + ins));
    }
}

/// Carry out the decisions of a whole patch list, with a fresh stack of open nodes; the
/// children left waiting at the top level come back.
fn plan_list_exec<M, S>(
    patches: Vec<Patch<M, S>>,
    keyed: &mut HashMap<u64, Vec<Patch<M, S>>>,
    fuel: usize,
    next: &mut usize,
    out: &mut Vec<Step<M, S>>,
) -> (r: Result<Vec<Child>, PlanError>)
    requires
        *old(next) <= old(out)@.len(),
    ensures
        *final(next) <= final(out)@.len(),
        ({
            let sp = plan_list(patches@, keyed_view(old(keyed)@), fuel as nat, *old(next) as nat);
            match r {
                Ok(v) => {
                    &&& sp is Ok
                    &&& final(out)@ == old(out)@ + sp->Ok_0.steps
                    &&& keyed_view(final(keyed)@) == sp->Ok_0.keyed
                    &&& v@ == sp->Ok_0.pending
                    &&& *final(next) == sp->Ok_0.next
                },
                Err(e) => sp == Err::<PlanOut<M, S>, PlanError>(e),
            }
        }),
    decreases fuel, 1usize,
{
    let ghost ps = patches@;
    let ghost out0 = out@;
    let ghost whole = plan_list(ps, keyed_view(keyed@), fuel as nat, *next as nat);
    let mut q = to_deque(patches);
    let mut ns = NodeStack::new();
    let mut deferred: Vec<Step<M, S>> = Vec::new();
    let ghost mut i: int = 0;
    let ghost mut done: Seq<Step<M, S>> = Seq::empty();
    proof {
        lemma_prepend_empty(whole);
        assert(ps.skip(0) =~= ps);
    }
    while q.len() > 0
        invariant
            0 <= i <= ps.len(),
            q@ == ps.skip(i),
            *next <= out@.len(),
            out@ == out0 + done,
            whole == plan_list(ps, keyed_view(old(keyed)@), fuel as nat, *old(next) as nat),
            ps == patches@,
            whole == prepend_steps(
                done,
                plan_from(ps, i, state_of(ns@, deferred@, keyed@, *next), fuel as nat),
            ),
        decreases q@.len(),
    {
        assert(ps.skip(i).len() > 0);
        let p = q.pop_front().unwrap();
        let ghost st = state_of(ns@, deferred@, keyed@, *next);
        let ghost before = out@;
        assert(p == ps[i]);
        let r = plan_patch_exec(p, &mut ns, &mut deferred, keyed, fuel, next, out);
        match r {
            Ok(_) => {
                proof {
                    let s1 = plan_patch(ps[i], st, fuel as nat)->Ok_0.1;
                    lemma_prepend_twice(done, s1, plan_from(ps, i + 1, state_of(ns@, deferred@, keyed@, *next), fuel as nat));
                    done = done + s1;
                    i = i + 1;
                    assert(q@ =~= ps.skip(i));
                }
            },
            Err(e) => {
                assert(plan_from(ps, i, st, fuel as nat) == Err::<PlanOut<M, S>, PlanError>(e));
                assert(whole == Err::<PlanOut<M, S>, PlanError>(e));
                return Err(e);
            },
        }
    }
    proof {
        assert(ps.skip(i).len() == 0);
    }
    let ghost st = state_of(ns@, deferred@, keyed@, *next);
    let ghost dl = deferred@;
    out.append(&mut deferred);
    if ns.depth() != 0 {
        return Err(PlanError::Unclosed);
    }
    let pending = ns.pop_pending();
    proof {
        assert(out@ =~= out0 + (done + dl));
    }
    Ok(pending)
}

/// The steps that apply a patch set, and the children left waiting at the top level, which
/// go under the parent the patch set is applied to.
#[derive(Debug)]
pub struct Plan<M, S> {
    /// The steps, in order.
    pub steps: Vec<Step<M, S>>,
    /// The children left waiting at the top level.
    pub pending: Vec<Child>,
}

impl<M, S> PatchSet<M, S> {
    /// The walk over this patch set, numbering the new storage entries from 0.
    pub open spec fn planned(&self) -> Result<PlanOut<M, S>, PlanError> {
        plan_list(self.patches@, self.keyed_seqs(), self.keyed@.dom().len(), 0)
    }

    /// Decide the steps that apply this patch set to the browser's dom and build the new
    /// storage, or why it cannot be applied. A patch set whose patches refer to a keyed patch
    /// list it does not hold, or to one a second time (each use removes the list), cannot be
    /// applied: the plan is `Err(PlanError::MissingKey(key))` for the first such reference, where
    /// applying it could not go on. A patch set that a diff made never meets that error (see
    /// `key_laws::law_diff_plans_without_missing_key`).
    pub fn plan(self) -> (r: Result<Plan<M, S>, PlanError>)
        ensures
            match self.planned() {
                Ok(o) => {
                    &&& r is Ok
                    &&& r->Ok_0.steps@ == o.steps
                    &&& r->Ok_0.pending@ == o.pending
                    &&& o.next <= usize::MAX
                },
                Err(e) => r == Err::<Plan<M, S>, PlanError>(e),
            },
    {
        let PatchSet { patches, keyed } = self;
        let mut keyed = keyed;
        let fuel = keyed.len();
        let mut next: usize = 0;
        let mut out: Vec<Step<M, S>> = Vec::new();
        match plan_list_exec(patches, &mut keyed, fuel, &mut next, &mut out) {
            Ok(pending) => {
                assert(out@ =~= Seq::<Step<M, S>>::empty() + out@);
                Ok(Plan { steps: out, pending })
            },
            Err(e) => Err(e),
        }
    }
}

} // verus!
