//! The mathematical model of the diff algorithm.
//!
//! The diff walks the old and the new virtual dom in lock step. A step of the walk is a function
//! from a [`DiffModel`] (what is left of both walks, what is left of the storage, the patches
//! emitted so far and the keyed sub trees set aside so far) to the next `DiffModel`. The
//! executable code in [`crate::diff`] is proved to compute exactly these functions.
use vstd::prelude::*;
use vstd::std_specs::cmp::PartialEqSpec;
use crate::vdom::{DomItem, handler_eq, is_keyed, opens_node, uses_storage};
use crate::patch::Patch;

verus! {

/// The state of a diff in progress.
pub struct DiffModel<M, S> {
    /// What is left of the old virtual dom.
    pub old: Seq<DomItem<M>>,
    /// What is left of the new virtual dom.
    pub new: Seq<DomItem<M>>,
    /// What is left of the storage of the old dom.
    pub sto: Seq<S>,
    /// The patches emitted so far.
    pub patches: Seq<Patch<M, S>>,
    /// Keyed sub trees of the old dom set aside, with their storage, in order of appearance.
    pub old_def: Seq<(u64, Seq<DomItem<M>>, Seq<S>)>,
    /// Keyed sub trees of the new dom set aside, in order of appearance.
    pub new_def: Seq<(u64, Seq<DomItem<M>>)>,
    /// Whether keyed sub trees are set aside.
    pub defer: bool,
}

/// One for an item in hand, zero for none.
pub open spec fn held<T>(o: Option<T>) -> nat {
    if o is Some {
        1
    } else {
        0
    }
}

/// The storage an item in hand still owns.
pub open spec fn held_sto<M>(o: Option<DomItem<M>>) -> nat {
    match o {
        Some(i) => if uses_storage(i) {
            1
        } else {
            0
        },
        None => 0,
    }
}

/// The key of a keyed element or component.
pub open spec fn key_of<M>(i: DomItem<M>) -> u64 {
    match i {
        DomItem::Element { key: Some(k), .. } => k,
        DomItem::Component { key: Some(k), .. } => k,
        _ => 0,
    }
}

/// The patch that creates an item of the new dom from nothing.
pub open spec fn create_patch<M, S>(i: DomItem<M>) -> Patch<M, S> {
    match i {
        DomItem::Element { name, .. } => Patch::CreateElement { element: name },
        DomItem::Text(text) => Patch::CreateText { text },
        DomItem::Component { msg, create, .. } => Patch::CreateComponent { msg, create },
        DomItem::Key(k) => Patch::ReferenceKey(k),
        DomItem::UnsafeInnerHtml(html) => Patch::SetInnerHtml(html),
        DomItem::Event { trigger, handler } => Patch::AddListener { trigger, handler },
        DomItem::Attr { name, value } => Patch::SetAttribute { name, value },
        DomItem::Up => Patch::Up,
    }
}

/// The patch that removes a node of the old dom, given its storage.
pub open spec fn removal_patch<M, S>(i: DomItem<M>, w: S) -> Patch<M, S> {
    match i {
        DomItem::Text(_) => Patch::RemoveText(w),
        DomItem::Component { .. } => Patch::RemoveComponent(w),
        _ => Patch::RemoveElement(w),
    }
}

/// The new nesting depth after an item that does not close the current node.
pub open spec fn next_depth<M>(i: DomItem<M>, depth: nat) -> nat {
    if opens_node(i) {
        depth + 1
    } else if i is Up {
        (depth - 1) as nat
    } else {
        depth
    }
}

/// Attributes the browser may change on its own; they are always set.
pub open spec fn is_special_attr(name: Seq<char>) -> bool {
    name == "checked"@ || name == "selected"@ || name == "spellcheck"@
}

/// The keys of the set aside old sub trees.
pub open spec fn old_keys<M, S>(od: Seq<(u64, Seq<DomItem<M>>, Seq<S>)>) -> Seq<u64> {
    od.map_values(|e: (u64, Seq<DomItem<M>>, Seq<S>)| e.0)
}

/// The keys of the set aside new sub trees.
pub open spec fn new_keys<M>(nd: Seq<(u64, Seq<DomItem<M>>)>) -> Seq<u64> {
    nd.map_values(|e: (u64, Seq<DomItem<M>>)| e.0)
}

/// The first position of `k` in `keys`, if any.
pub open spec fn first_index(keys: Seq<u64>, k: u64) -> Option<int> {
    if exists|i: int| 0 <= i < keys.len() && keys[i] == k {
        Some(
            choose|i: int|
                0 <= i < keys.len() && keys[i] == k && forall|j: int| 0 <= j < i ==> keys[j] != k,
        )
    } else {
        None
    }
}

impl<M, S> DiffModel<M, S> {
    /// Take the next item of the old walk.
    pub open spec fn pop_old(self) -> (Self, Option<DomItem<M>>) {
        if self.old.len() > 0 {
            (DiffModel { old: self.old.drop_first(), ..self }, Some(self.old[0]))
        } else {
            (self, None)
        }
    }

    /// Take the next item of the new walk.
    pub open spec fn pop_new(self) -> (Self, Option<DomItem<M>>) {
        if self.new.len() > 0 {
            (DiffModel { new: self.new.drop_first(), ..self }, Some(self.new[0]))
        } else {
            (self, None)
        }
    }

    /// Take the next storage entry.
    pub open spec fn take_sto(self) -> (Self, S) {
        (DiffModel { sto: self.sto.drop_first(), ..self }, self.sto[0])
    }

    /// Emit a patch.
    pub open spec fn emit(self, p: Patch<M, S>) -> Self {
        DiffModel { patches: self.patches.push(p), ..self }
    }
}

// ---------------------------------------------------------------------------------------------
// The old side: skipping and setting aside sub trees of the old dom.
// ---------------------------------------------------------------------------------------------

/// Skip the rest of the sub tree whose opening item was just taken from the old walk, up to its
/// closing `Up`, removing each component in it (keyed ones are set aside instead, where keyed
/// sub trees are); return the item after it.
pub open spec fn remove_sub_tree<M, S>(m: DiffModel<M, S>) -> (DiffModel<M, S>, Option<DomItem<M>>)
    decreases m.old.len(), 2nat,
{
    let (m1, i) = m.pop_old();
    remove_sub_tree_loop(m1, i, 0)
}

/// The loop of [`remove_sub_tree`], with `item` in hand at the given depth below the node.
pub open spec fn remove_sub_tree_loop<M, S>(
    m: DiffModel<M, S>,
    item: Option<DomItem<M>>,
    depth: nat,
) -> (DiffModel<M, S>, Option<DomItem<M>>)
    decreases m.old.len() + held(item), 1nat,
{
    match item {
        None => (m, None),
        Some(i) => if is_keyed(i) && m.defer {
            let (m2, _d, next) = defer_remove_sub_tree(m, i, None);
            if m2.old.len() + held(next) < m.old.len() + 1 {
                remove_sub_tree_loop(m2, next, depth)
            } else {
                (m2, next)
            }
        } else if i is Up && depth == 0 {
            let (m2, _w) = m.take_sto();
            m2.pop_old()
        } else {
            let m2 = if i is Component {
                let (m1, w) = m.take_sto();
                m1.emit(Patch::RemoveComponent(w))
            } else if uses_storage(i) {
                m.take_sto().0
            } else {
                m
            };
            let (m3, next) = m2.pop_old();
            remove_sub_tree_loop(m3, next, next_depth(i, depth))
        },
    }
}

/// Set aside the keyed sub tree of the old dom whose opening `item` was just taken, with its
/// storage. Nested keyed sub trees are set aside on their own, and a `Key` item stands for them
/// in the items of their parent. A key seen a second time is not set aside again: inside a set
/// aside tree its items join the parent's, at the top level the sub tree is removed.
pub open spec fn defer_remove_sub_tree<M, S>(
    m: DiffModel<M, S>,
    item: DomItem<M>,
    deferred: Option<(Seq<DomItem<M>>, Seq<S>)>,
) -> (DiffModel<M, S>, Option<(Seq<DomItem<M>>, Seq<S>)>, Option<DomItem<M>>)
    decreases m.old.len() + 1, 0nat,
{
    let key = key_of(item);
    let (m1, w) = m.take_sto();
    if old_keys(m1.old_def).contains(key) {
        match deferred {
            Some(d) => {
                let (m2, first) = m1.pop_old();
                let (m3, di, ds, next) = defer_remove_loop(m2, first, 0, seq![], seq![]);
                (m3, Some((d.0.push(item) + di, d.1.push(w) + ds)), next)
            },
            None => {
                let m2 = m1.emit(removal_patch(item, w));
                let (m3, next) = remove_sub_tree(m2);
                (m3, None, next)
            },
        }
    } else {
        let d1 = match deferred {
            Some(d) => Some((d.0.push(DomItem::Key(key)), d.1)),
            None => None,
        };
        let idx = m1.old_def.len() as int;
        let m2 = DiffModel { old_def: m1.old_def.push((key, seq![item], seq![w])), ..m1 };
        let (m3, first) = m2.pop_old();
        let (m4, di, ds, next) = defer_remove_loop(m3, first, 0, seq![], seq![]);
        let e = m4.old_def[idx];
        (DiffModel { old_def: m4.old_def.update(idx, (e.0, e.1 + di, e.2 + ds)), ..m4 }, d1, next)
    }
}

/// The loop of [`defer_remove_sub_tree`]: collect the items and storage of the sub tree.
pub open spec fn defer_remove_loop<M, S>(
    m: DiffModel<M, S>,
    item: Option<DomItem<M>>,
    depth: nat,
    di: Seq<DomItem<M>>,
    ds: Seq<S>,
) -> (DiffModel<M, S>, Seq<DomItem<M>>, Seq<S>, Option<DomItem<M>>)
    decreases m.old.len() + held(item), 1nat,
{
    match item {
        None => (m, di, ds, None),
        Some(i) => if is_keyed(i) {
            let (m2, d2, next) = defer_remove_sub_tree(m, i, Some((di, ds)));
            let (di2, ds2) = match d2 {
                Some(d) => d,
                None => (di, ds),
            };
            if m2.old.len() + held(next) < m.old.len() + 1 {
                defer_remove_loop(m2, next, depth, di2, ds2)
            } else {
                (m2, di2, ds2, next)
            }
        } else if i is Up && depth == 0 {
            let (m2, w) = m.take_sto();
            let (m3, next) = m2.pop_old();
            (m3, di.push(i), ds.push(w), next)
        } else {
            let (m2, ds2) = if uses_storage(i) {
                let (a, w) = m.take_sto();
                (a, ds.push(w))
            } else {
                (m, ds)
            };
            let (m3, next) = m2.pop_old();
            defer_remove_loop(m3, next, next_depth(i, depth), di.push(i), ds2)
        },
    }
}

// ---------------------------------------------------------------------------------------------
// The new side: creating and setting aside sub trees of the new dom.
// ---------------------------------------------------------------------------------------------

/// Create the rest of the sub tree whose opening item was just taken from the new walk, up to
/// its closing `Up`; return the item after it.
pub open spec fn add_sub_tree<M, S>(m: DiffModel<M, S>) -> (DiffModel<M, S>, Option<DomItem<M>>)
    decreases m.new.len(), 2nat,
{
    let (m1, i) = m.pop_new();
    add_sub_tree_loop(m1, i, 0)
}

/// The loop of [`add_sub_tree`], with `item` in hand at the given depth below the node.
pub open spec fn add_sub_tree_loop<M, S>(
    m: DiffModel<M, S>,
    item: Option<DomItem<M>>,
    depth: nat,
) -> (DiffModel<M, S>, Option<DomItem<M>>)
    decreases m.new.len() + held(item), 1nat,
{
    match item {
        None => (m, None),
        Some(i) => if is_keyed(i) && m.defer {
            let (m2, _d, next) = defer_add_sub_tree(m, i, None);
            if m2.new.len() + held(next) < m.new.len() + 1 {
                add_sub_tree_loop(m2, next, depth)
            } else {
                (m2, next)
            }
        } else if i is Up && depth == 0 {
            m.emit(Patch::Up).pop_new()
        } else {
            let (m2, next) = m.emit(create_patch(i)).pop_new();
            add_sub_tree_loop(m2, next, next_depth(i, depth))
        },
    }
}

/// Set aside the keyed sub tree of the new dom whose opening `item` was just taken. Its place is
/// marked by a `ReferenceKey` patch, or, inside a set aside tree, by a `Key` item. A key seen a
/// second time is not set aside again: inside a set aside tree its items join the parent's, at
/// the top level the sub tree is created in place.
pub open spec fn defer_add_sub_tree<M, S>(
    m: DiffModel<M, S>,
    item: DomItem<M>,
    deferred: Option<Seq<DomItem<M>>>,
) -> (DiffModel<M, S>, Option<Seq<DomItem<M>>>, Option<DomItem<M>>)
    decreases m.new.len() + 1, 0nat,
{
    let key = key_of(item);
    if new_keys(m.new_def).contains(key) {
        match deferred {
            Some(d) => {
                let (m2, first) = m.pop_new();
                let (m3, dd, next) = defer_add_loop(m2, first, 0, seq![]);
                (m3, Some(d.push(item) + dd), next)
            },
            None => {
                let (m3, next) = add_sub_tree(m.emit(create_patch(item)));
                (m3, None, next)
            },
        }
    } else {
        let (m1, d1) = match deferred {
            Some(d) => (m, Some(d.push(DomItem::Key(key)))),
            None => (m.emit(Patch::ReferenceKey(key)), None),
        };
        let idx = m1.new_def.len() as int;
        let m2 = DiffModel { new_def: m1.new_def.push((key, seq![item])), ..m1 };
        let (m3, first) = m2.pop_new();
        let (m4, dd, next) = defer_add_loop(m3, first, 0, seq![]);
        let e = m4.new_def[idx];
        (DiffModel { new_def: m4.new_def.update(idx, (e.0, e.1 + dd)), ..m4 }, d1, next)
    }
}

/// The loop of [`defer_add_sub_tree`]: collect the items of the sub tree.
pub open spec fn defer_add_loop<M, S>(
    m: DiffModel<M, S>,
    item: Option<DomItem<M>>,
    depth: nat,
    d: Seq<DomItem<M>>,
) -> (DiffModel<M, S>, Seq<DomItem<M>>, Option<DomItem<M>>)
    decreases m.new.len() + held(item), 1nat,
{
    match item {
        None => (m, d, None),
        Some(i) => if is_keyed(i) {
            let (m2, d2, next) = defer_add_sub_tree(m, i, Some(d));
            let dd = match d2 {
                Some(x) => x,
                None => d,
            };
            if m2.new.len() + held(next) < m.new.len() + 1 {
                defer_add_loop(m2, next, depth, dd)
            } else {
                (m2, dd, next)
            }
        } else if i is Up && depth == 0 {
            let (m2, next) = m.pop_new();
            (m2, d.push(i), next)
        } else {
            let (m2, next) = m.pop_new();
            defer_add_loop(m2, next, next_depth(i, depth), d.push(i))
        },
    }
}

// ---------------------------------------------------------------------------------------------
// The lock step walk.
// ---------------------------------------------------------------------------------------------

/// Emit the patches that remove `item` of the old dom; return the next old item to look at.
pub open spec fn remove_item<M, S>(m: DiffModel<M, S>, item: DomItem<M>) -> (
    DiffModel<M, S>,
    Option<DomItem<M>>,
) {
    if is_keyed(item) && m.defer {
        let (m2, _d, next) = defer_remove_sub_tree(m, item, None);
        (m2, next)
    } else {
        match item {
            DomItem::Element { .. } | DomItem::Text(_) | DomItem::Component { .. } => {
                let (m1, w) = m.take_sto();
                remove_sub_tree(m1.emit(removal_patch(item, w)))
            },
            DomItem::UnsafeInnerHtml(_) => m.emit(Patch::UnsetInnerHtml).pop_old(),
            DomItem::Event { trigger, .. } => {
                let (m1, w) = m.take_sto();
                m1.emit(Patch::RemoveListener { trigger, take: w }).pop_old()
            },
            DomItem::Attr { name, .. } => m.emit(Patch::RemoveAttribute(name)).pop_old(),
            DomItem::Up => (m, Some(item)),
            DomItem::Key(_) => m.pop_old(),
        }
    }
}

/// Emit the patches that create `item` of the new dom; return the next new item to look at.
pub open spec fn add_item<M, S>(m: DiffModel<M, S>, item: DomItem<M>) -> (
    DiffModel<M, S>,
    Option<DomItem<M>>,
) {
    if is_keyed(item) && m.defer {
        let (m2, _d, next) = defer_add_sub_tree(m, item, None);
        (m2, next)
    } else if item is Up {
        (m, Some(item))
    } else if opens_node(item) {
        add_sub_tree(m.emit(create_patch(item)))
    } else {
        m.emit(create_patch(item)).pop_new()
    }
}

/// Take the next item of both walks.
pub open spec fn advance<M, S>(m: DiffModel<M, S>) -> (
    DiffModel<M, S>,
    Option<DomItem<M>>,
    Option<DomItem<M>>,
) {
    let (m1, o) = m.pop_old();
    let (m2, n) = m1.pop_new();
    (m2, o, n)
}

/// The ways two items can match.
pub enum Match {
    /// Keyed elements with the same name and key.
    KeyedElements,
    /// Elements without keys with the same name.
    Elements,
    /// Two text nodes.
    Texts,
    /// Two inner html values.
    InnerHtml,
    /// Keyed components with the same constructor and key.
    KeyedComponents,
    /// Components without keys with the same constructor.
    Components,
    /// Two attributes.
    Attrs,
    /// Two event listeners.
    Events,
    /// Two node ends.
    Ups,
    /// No match: the old item is removed and the new item added.
    Differ,
}

/// How the item `o` of the old dom matches the item `n` of the new dom.
pub open spec fn match_of<M>(o: DomItem<M>, n: DomItem<M>) -> Match {
    match (o, n) {
        (DomItem::Element { name: on, key: ok }, DomItem::Element { name: nn, key: nk }) => {
            if on@ == nn@ && ok is Some && nk is Some && ok == nk {
                Match::KeyedElements
            } else if on@ == nn@ && ok is None && nk is None {
                Match::Elements
            } else {
                Match::Differ
            }
        },
        (DomItem::Text(_), DomItem::Text(_)) => Match::Texts,
        (DomItem::UnsafeInnerHtml(_), DomItem::UnsafeInnerHtml(_)) => Match::InnerHtml,
        (
            DomItem::Component { key: ok, create: oc, .. },
            DomItem::Component { key: nk, create: nc, .. },
        ) => {
            if oc == nc && ok is Some && nk is Some && ok == nk {
                Match::KeyedComponents
            } else if oc == nc && ok is None && nk is None {
                Match::Components
            } else {
                Match::Differ
            }
        },
        (DomItem::Attr { .. }, DomItem::Attr { .. }) => Match::Attrs,
        (DomItem::Event { .. }, DomItem::Event { .. }) => Match::Events,
        (DomItem::Up, DomItem::Up) => Match::Ups,
        _ => Match::Differ,
    }
}

/// Compare the item `o` of the old dom with the item `n` of the new dom; return the next items
/// of both walks to look at.
pub open spec fn compare<M: PartialEq, S>(m: DiffModel<M, S>, o: DomItem<M>, n: DomItem<M>) -> (
    DiffModel<M, S>,
    Option<DomItem<M>>,
    Option<DomItem<M>>,
) {
    match match_of(o, n) {
        Match::KeyedElements => {
            let (m1, w) = m.take_sto();
            advance(m1.emit(Patch::MoveElement(w)))
        },
        Match::Elements => {
            let (m1, w) = m.take_sto();
            advance(m1.emit(Patch::CopyElement(w)))
        },
        Match::Texts => {
            let (m1, w) = m.take_sto();
            let p = match (o, n) {
                (DomItem::Text(ot), DomItem::Text(nt)) => if ot@ == nt@ {
                    Patch::CopyText(w)
                } else {
                    Patch::ReplaceText { take: w, text: nt }
                },
                _ => Patch::CopyText(w),
            };
            advance(m1.emit(p))
        },
        Match::InnerHtml => {
            let m1 = match (o, n) {
                (DomItem::UnsafeInnerHtml(oh), DomItem::UnsafeInnerHtml(nh)) => if oh@ != nh@ {
                    m.emit(Patch::SetInnerHtml(nh))
                } else {
                    m
                },
                _ => m,
            };
            advance(m1)
        },
        Match::KeyedComponents | Match::Components => {
            let (m1, w) = m.take_sto();
            let keyed = match_of(o, n) is KeyedComponents;
            let p = match (o, n) {
                (DomItem::Component { msg: om, .. }, DomItem::Component { msg: nm, .. }) => {
                    if om.eq_spec(&nm) {
                        if keyed {
                            Patch::MoveComponent(w)
                        } else {
                            Patch::CopyComponent(w)
                        }
                    } else if keyed {
                        Patch::MupdateComponent { take: w, msg: nm }
                    } else {
                        Patch::UpdateComponent { take: w, msg: nm }
                    }
                },
                _ => Patch::CopyComponent(w),
            };
            advance(m1.emit(p))
        },
        Match::Attrs => {
            let m1 = match (o, n) {
                (DomItem::Attr { name: on, value: ov }, DomItem::Attr { name: nn, value: nv }) => {
                    if on@ != nn@ {
                        m.emit(Patch::RemoveAttribute(on)).emit(
                            Patch::SetAttribute { name: nn, value: nv },
                        )
                    } else if ov@ != nv@ || is_special_attr(nn@) {
                        m.emit(Patch::SetAttribute { name: nn, value: nv })
                    } else {
                        m
                    }
                },
                _ => m,
            };
            advance(m1)
        },
        Match::Events => {
            let (m1, w) = m.take_sto();
            let m2 = match (o, n) {
                (
                    DomItem::Event { trigger: ot, handler: oh },
                    DomItem::Event { trigger: nt, handler: nh },
                ) => {
                    if ot@ != nt@ || !handler_eq(oh, nh) {
                        m1.emit(Patch::RemoveListener { trigger: ot, take: w }).emit(
                            Patch::AddListener { trigger: nt, handler: nh },
                        )
                    } else {
                        m1.emit(Patch::CopyListener(w))
                    }
                },
                _ => m1,
            };
            advance(m2)
        },
        Match::Ups => {
            let (m1, _w) = m.take_sto();
            advance(m1.emit(Patch::Up))
        },
        Match::Differ => {
            let (m1, on) = remove_item(m, o);
            let (m2, nn) = add_item(m1, n);
            (m2, on, nn)
        },
    }
}

/// What is left to walk: both sequences and the items in hand.
pub open spec fn walk_measure<M, S>(
    m: DiffModel<M, S>,
    o: Option<DomItem<M>>,
    n: Option<DomItem<M>>,
) -> nat {
    m.old.len() + m.new.len() + held(o) + held(n)
}

/// One step of the lock step walk, with the items `o` and `n` in hand.
pub open spec fn walk_step<M: PartialEq, S>(
    m: DiffModel<M, S>,
    o: Option<DomItem<M>>,
    n: Option<DomItem<M>>,
) -> (DiffModel<M, S>, Option<DomItem<M>>, Option<DomItem<M>>) {
    match (o, n) {
        (None, Some(ni)) => {
            let (m2, nn) = add_item(m, ni);
            (m2, None, nn)
        },
        (Some(oi), None) => {
            let (m2, on) = remove_item(m, oi);
            (m2, on, None)
        },
        (Some(oi), Some(ni)) => compare(m, oi, ni),
        (None, None) => (m, None, None),
    }
}

/// The lock step walk. It ends when both walks are done (or, for input that is not well formed,
/// when a walk is stuck on an `Up` that closes nothing).
pub open spec fn walk<M: PartialEq, S>(
    m: DiffModel<M, S>,
    o: Option<DomItem<M>>,
    n: Option<DomItem<M>>,
) -> DiffModel<M, S>
    decreases walk_measure(m, o, n),
{
    let (m2, o2, n2) = walk_step(m, o, n);
    if walk_measure(m2, o2, n2) < walk_measure(m, o, n) {
        walk(m2, o2, n2)
    } else {
        m2
    }
}

/// The state a diff starts from.
pub open spec fn start<M, S>(
    old: Seq<DomItem<M>>,
    new: Seq<DomItem<M>>,
    sto: Seq<S>,
    defer: bool,
) -> DiffModel<M, S> {
    DiffModel { old, new, sto, patches: seq![], old_def: seq![], new_def: seq![], defer }
}

/// The state after the lock step walk over `old` and `new`.
pub open spec fn run<M: PartialEq, S>(
    old: Seq<DomItem<M>>,
    new: Seq<DomItem<M>>,
    sto: Seq<S>,
    defer: bool,
) -> DiffModel<M, S> {
    let (m1, o) = start(old, new, sto, defer).pop_old();
    let (m2, n) = m1.pop_new();
    walk(m2, o, n)
}

/// Diff the set aside old sub trees, in order: one whose key was also set aside on the new side
/// gets its own keyed patch list, any other is removed by patches appended to the top level.
pub open spec fn finish_old<M: PartialEq, S>(
    patches: Seq<Patch<M, S>>,
    keyed: Map<u64, Seq<Patch<M, S>>>,
    od: Seq<(u64, Seq<DomItem<M>>, Seq<S>)>,
    nd: Seq<(u64, Seq<DomItem<M>>)>,
) -> (Seq<Patch<M, S>>, Map<u64, Seq<Patch<M, S>>>, Seq<(u64, Seq<DomItem<M>>)>)
    decreases od.len(),
{
    if od.len() == 0 {
        (patches, keyed, nd)
    } else {
        let e = od[0];
        match first_index(new_keys(nd), e.0) {
            Some(j) => {
                let sub = run(e.1, nd[j].1, e.2, false);
                finish_old(patches, keyed.insert(e.0, sub.patches), od.drop_first(), nd.remove(j))
            },
            None => {
                let sub = run(e.1, seq![], e.2, false);
                finish_old(patches + sub.patches, keyed, od.drop_first(), nd)
            },
        }
    }
}

/// Create the set aside new sub trees that found no old counterpart, each in its own keyed
/// patch list.
pub open spec fn finish_new<M: PartialEq, S>(
    keyed: Map<u64, Seq<Patch<M, S>>>,
    nd: Seq<(u64, Seq<DomItem<M>>)>,
) -> Map<u64, Seq<Patch<M, S>>>
    decreases nd.len(),
{
    if nd.len() == 0 {
        keyed
    } else {
        let e = nd[0];
        let sub = run(seq![], e.1, seq![], false);
        finish_new(keyed.insert(e.0, sub.patches), nd.drop_first())
    }
}

/// The patch set that moves the dom from `old` (whose rendered nodes are held in `sto`) to
/// `new`: the top level patch list, and the patch lists of keyed sub trees.
pub open spec fn diff_result<M: PartialEq, S>(
    old: Seq<DomItem<M>>,
    new: Seq<DomItem<M>>,
    sto: Seq<S>,
) -> (Seq<Patch<M, S>>, Map<u64, Seq<Patch<M, S>>>) {
    let m = run(old, new, sto, true);
    let (p, k, nd) = finish_old(m.patches, Map::empty(), m.old_def, m.new_def);
    (p, finish_new(k, nd))
}

} // verus!
