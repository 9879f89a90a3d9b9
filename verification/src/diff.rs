//! Tools to get the difference between two virtual dom trees.
use std::collections::HashMap;
use std::collections::VecDeque;
use vstd::prelude::*;
use vstd::std_specs::cmp::PartialEqSpec;
use crate::vdom::{
    DomItem, handlers_equal, is_keyed, item_is_keyed, item_is_up, item_opens_node,
    item_uses_storage, lemma_storage_count_concat, lemma_storage_count_push, opens_node,
    storage_count, uses_storage,
};
use crate::patch::{Patch, PatchSet, keyed_view};
use crate::diff_model::{
    DiffModel, Match, add_item, add_sub_tree, add_sub_tree_loop, compare, create_patch,
    defer_add_loop, defer_add_sub_tree, defer_remove_loop, defer_remove_sub_tree, diff_result,
    finish_new, finish_old, first_index, held, held_sto, is_special_attr, key_of, match_of,
    new_keys, next_depth, old_keys, remove_item, remove_sub_tree, remove_sub_tree_loop,
    removal_patch, run, start, walk, walk_measure, walk_step,
};

verus! {

broadcast use vstd::std_specs::vecdeque::group_vec_dequeue_axioms;

/// Return the series of steps required to move from the given old virtual dom, whose rendered
/// nodes are held in `storage` (one entry per node, listener and node end, in walk order), to
/// the given new virtual dom.
pub fn diff<M: PartialEq, S>(old: Vec<DomItem<M>>, new: Vec<DomItem<M>>, storage: Vec<S>) -> (r:
    PatchSet<M, S>)
    requires
        M::obeys_eq_spec(),
        storage@.len() >= storage_count(old@),
    ensures
        (r.patches@, r.keyed_seqs()) == diff_result(old@, new@, storage@),
{
    diff_with(old, new, storage, true)
}

/// The old side entries set aside, as sequences.
pub open spec fn old_def_view<M, S>(v: Seq<(u64, Vec<DomItem<M>>, Vec<S>)>) -> Seq<
    (u64, Seq<DomItem<M>>, Seq<S>),
> {
    v.map_values(|e: (u64, Vec<DomItem<M>>, Vec<S>)| (e.0, e.1@, e.2@))
}

/// The new side entries set aside, as sequences.
pub open spec fn new_def_view<M>(v: Seq<(u64, Vec<DomItem<M>>)>) -> Seq<(u64, Seq<DomItem<M>>)> {
    v.map_values(|e: (u64, Vec<DomItem<M>>)| (e.0, e.1@))
}

/// A deferred list and its storage, as sequences.
pub open spec fn deferred_view<M, S>(d: Option<(Vec<DomItem<M>>, Vec<S>)>) -> Option<
    (Seq<DomItem<M>>, Seq<S>),
> {
    match d {
        Some(x) => Some((x.0@, x.1@)),
        None => None,
    }
}

/// A deferred list, as a sequence.
pub open spec fn deferred_items_view<M>(d: Option<Vec<DomItem<M>>>) -> Option<Seq<DomItem<M>>> {
    match d {
        Some(x) => Some(x@),
        None => None,
    }
}

/// Each set aside old sub tree comes with exactly its storage.
pub open spec fn defs_balanced<M, S>(od: Seq<(u64, Seq<DomItem<M>>, Seq<S>)>) -> bool {
    forall|i: int| 0 <= i < od.len() ==> (#[trigger] od[i]).2.len() == storage_count(od[i].1)
}

/// There is storage left for the rest of the old walk and the item in hand.
pub open spec fn enough_storage<M, S>(m: DiffModel<M, S>, item: Option<DomItem<M>>) -> bool {
    m.sto.len() >= storage_count(m.old) + held_sto(item)
}

/// What every step keeps: the deferring mode, and the set aside entries, which only grow, and
/// stay untouched when nothing is deferred.
pub open spec fn steps<M, S>(a: DiffModel<M, S>, b: DiffModel<M, S>) -> bool {
    &&& b.defer == a.defer
    &&& a.old_def.len() <= b.old_def.len()
    &&& a.new_def.len() <= b.new_def.len()
    &&& !a.defer ==> b.old_def == a.old_def && b.new_def == a.new_def
}

proof fn lemma_pop_storage<M>(old: Seq<DomItem<M>>)
    requires
        old.len() > 0,
    ensures
        storage_count(old) == storage_count(old.drop_first()) + held_sto(Some(old[0])),
{
}

struct DiffImpl<M, S> {
    old: VecDeque<DomItem<M>>,
    new: VecDeque<DomItem<M>>,
    sto: VecDeque<S>,
    patch_set: PatchSet<M, S>,
    /// old keyed sub trees (and their storage), in order of appearance. They are kept in a list
    /// rather than a map by key: the pass that finishes them goes through them in order, and
    /// the order in which a hash map is walked is one no contract can name, so over a map the
    /// patches of the diff (the removals of old keyed trees that found no counterpart come in
    /// that order) could not be stated exactly. Keys are looked up by a search of the list.
    old_def: Vec<(u64, Vec<DomItem<M>>, Vec<S>)>,
    /// new keyed sub trees, in order of appearance
    new_def: Vec<(u64, Vec<DomItem<M>>)>,
    /// if true, keyed items are set aside
    defer_keyed: bool,
}

/// Move the items of a vector into a double ended queue, in order.
pub(crate) fn to_deque<T>(v: Vec<T>) -> (d: VecDeque<T>)
    ensures
        d@ == v@,
{
    let ghost orig = v@;
    let mut v = v;
    let mut d: VecDeque<T> = VecDeque::new();
    while v.len() > 0
        invariant
            v@ == orig.take(v@.len() as int),
            d@ == orig.skip(v@.len() as int),
            v@.len() <= orig.len(),
        decreases v.len(),
    {
        let x = v.pop().unwrap();
        d.push_front(x);
        proof {
            assert(orig.skip(v@.len() as int) =~= seq![x] + orig.skip(v@.len() + 1 as int));
            assert(v@ =~= orig.take(v@.len() as int));
        }
    }
    assert(d@ =~= orig);
    d
}

/// The patch that removes a node of the old dom.
fn removal_patch_of<M, S>(item: &DomItem<M>, w: S) -> (p: Patch<M, S>)
    ensures
        p == removal_patch(*item, w),
{
    match item {
        DomItem::Text(_) => Patch::RemoveText(w),
        DomItem::Component { .. } => Patch::RemoveComponent(w),
        _ => Patch::RemoveElement(w),
    }
}

/// The patch that creates an item of the new dom.
fn create_patch_of<M, S>(item: DomItem<M>) -> (p: Patch<M, S>)
    ensures
        p == create_patch::<M, S>(item),
{
    match item {
        DomItem::Element { name, .. } => Patch::CreateElement { element: name },
        DomItem::Text(text) => Patch::CreateText { text },
        DomItem::Component { msg, create, .. } => Patch::CreateComponent { msg, create },
        DomItem::Key(k) => Patch::ReferenceKey(k),
        DomItem::UnsafeInnerHtml(html) => Patch::SetInnerHtml(html),
        DomItem::Event { trigger, handler } => Patch::AddListener { trigger, handler },
        DomItem::Attr { name, value } => Patch::SetAttribute { name, value },
        DomItem::Up => Patch::Up,
    }
}

/// Decide whether an attribute is one the browser may change on its own.
fn is_special_attribute(name: &String) -> (r: bool)
    ensures
        r == is_special_attr(name@),
{
    let checked = "checked".to_owned();
    let selected = "selected".to_owned();
    let spellcheck = "spellcheck".to_owned();
    *name == checked || *name == selected || *name == spellcheck
}

/// How the item `o` of the old dom matches the item `n` of the new dom.
fn match_items<M: PartialEq>(o: &DomItem<M>, n: &DomItem<M>) -> (r: Match)
    ensures
        r == match_of(*o, *n),
{
    match (o, n) {
        (DomItem::Element { name: on, key: ok }, DomItem::Element { name: nn, key: nk }) => {
            let same = *on == *nn;
            match (ok, nk) {
                (Some(a), Some(b)) => if same && *a == *b {
                    Match::KeyedElements
                } else {
                    Match::Differ
                },
                (None, None) => if same {
                    Match::Elements
                } else {
                    Match::Differ
                },
                _ => Match::Differ,
            }
        },
        (DomItem::Text(_), DomItem::Text(_)) => Match::Texts,
        (DomItem::UnsafeInnerHtml(_), DomItem::UnsafeInnerHtml(_)) => Match::InnerHtml,
        (
            DomItem::Component { key: ok, create: oc, .. },
            DomItem::Component { key: nk, create: nc, .. },
        ) => {
            let same = *oc == *nc;
            match (ok, nk) {
                (Some(a), Some(b)) => if same && *a == *b {
                    Match::KeyedComponents
                } else {
                    Match::Differ
                },
                (None, None) => if same {
                    Match::Components
                } else {
                    Match::Differ
                },
                _ => Match::Differ,
            }
        },
        (DomItem::Attr { .. }, DomItem::Attr { .. }) => Match::Attrs,
        (DomItem::Event { .. }, DomItem::Event { .. }) => Match::Events,
        (DomItem::Up, DomItem::Up) => Match::Ups,
        _ => Match::Differ,
    }
}

/// Find the first entry of the new side with the given key.
fn find_new_entry<M>(nd: &Vec<(u64, Vec<DomItem<M>>)>, key: u64) -> (r: Option<usize>)
    ensures
        match r {
            Some(j) => first_index(new_keys(new_def_view(nd@)), key) == Some(j as int),
            None => first_index(new_keys(new_def_view(nd@)), key) is None,
        },
        r matches Some(j) ==> j < nd@.len(),
{
    let ghost keys = new_keys(new_def_view(nd@));
    let mut j: usize = 0;
    while j < nd.len()
        invariant
            j <= nd.len(),
            keys.len() == nd@.len(),
            keys == new_keys(new_def_view(nd@)),
            forall|i: int| 0 <= i < j ==> keys[i] != key,
        decreases nd.len() - j,
    {
        assert(keys[j as int] == nd@[j as int].0);
        if nd[j].0 == key {
            let ghost c = choose|i: int|
                0 <= i < keys.len() && keys[i] == key && forall|l: int| 0 <= l < i ==> keys[l] != key;
            assert(exists|i: int| 0 <= i < keys.len() && keys[i] == key);
            assert(0 <= c < keys.len() && keys[c] == key && forall|l: int| 0 <= l < c ==> keys[l]
                != key);
            assert(c == j) by {
                if c < j {
                } else if c > j {
                    assert(keys[j as int] == key);
                }
            }
            return Some(j);
        }
        j = j + 1;
    }
    assert(!exists|i: int| 0 <= i < keys.len() && keys[i] == key);
    None
}

/// Diff `old` against `new`, setting keyed sub trees aside when `defer` is true.
fn diff_with<M: PartialEq, S>(
    old: Vec<DomItem<M>>,
    new: Vec<DomItem<M>>,
    storage: Vec<S>,
    defer: bool,
) -> (r: PatchSet<M, S>)
    requires
        M::obeys_eq_spec(),
        storage@.len() >= storage_count(old@),
    ensures
        defer ==> (r.patches@, r.keyed_seqs()) == diff_result(old@, new@, storage@),
        !defer ==> r.patches@ == run(old@, new@, storage@, false).patches && r.keyed@ == Map::<
            u64,
            Vec<Patch<M, S>>,
        >::empty(),
    decreases
            if defer {
                2nat
            } else {
                0nat
            },
{
    let mut d = DiffImpl {
        old: to_deque(old),
        new: to_deque(new),
        sto: to_deque(storage),
        patch_set: PatchSet::new(),
        old_def: Vec::new(),
        new_def: Vec::new(),
        defer_keyed: defer,
    };
    proof {
        assert(d.model() == start(old@, new@, storage@, defer)) by {
            assert(old_def_view(d.old_def@) =~= Seq::<(u64, Seq<DomItem<M>>, Seq<S>)>::empty());
            assert(new_def_view(d.new_def@) =~= Seq::<(u64, Seq<DomItem<M>>)>::empty());
        }
    }
    let o = d.next_old();
    let n = d.next_new();
    proof {
        if o is Some {
            lemma_pop_storage(old@);
        }
    }
    d.walk(o, n);
    if defer {
        d.finish()
    } else {
        proof {
            assert(old_def_view(d.old_def@) =~= Seq::<(u64, Seq<DomItem<M>>, Seq<S>)>::empty());
        }
        d.patch_set
    }
}

impl<M: PartialEq, S> DiffImpl<M, S> {
    spec fn model(&self) -> DiffModel<M, S> {
        DiffModel {
            old: self.old@,
            new: self.new@,
            sto: self.sto@,
            patches: self.patch_set.patches@,
            old_def: old_def_view(self.old_def@),
            new_def: new_def_view(self.new_def@),
            defer: self.defer_keyed,
        }
    }

    spec fn inv(&self) -> bool {
        &&& M::obeys_eq_spec()
        &&& self.patch_set.keyed@ == Map::<u64, Vec<Patch<M, S>>>::empty()
        &&& defs_balanced(self.model().old_def)
    }

    fn next_old(&mut self) -> (r: Option<DomItem<M>>)
        ensures
            (final(self).model(), r) == old(self).model().pop_old(),
            final(self).patch_set == old(self).patch_set,
            final(self).old_def == old(self).old_def,
    {
        let r = self.old.pop_front();
        proof {
            if r is Some {
                assert(self.old@ =~= old(self).old@.drop_first());
            }
        }
        r
    }

    fn next_new(&mut self) -> (r: Option<DomItem<M>>)
        ensures
            (final(self).model(), r) == old(self).model().pop_new(),
            final(self).patch_set == old(self).patch_set,
            final(self).old_def == old(self).old_def,
    {
        let r = self.new.pop_front();
        proof {
            if r is Some {
                assert(self.new@ =~= old(self).new@.drop_first());
            }
        }
        r
    }

    fn take_storage(&mut self) -> (r: S)
        requires
            old(self).sto@.len() > 0,
        ensures
            (final(self).model(), r) == old(self).model().take_sto(),
            final(self).patch_set == old(self).patch_set,
            final(self).old_def == old(self).old_def,
    {
        let r = self.sto.pop_front().unwrap();
        assert(self.sto@ =~= old(self).sto@.drop_first());
        r
    }

    fn emit(&mut self, p: Patch<M, S>)
        ensures
            final(self).model() == old(self).model().emit(p),
            final(self).patch_set.keyed@ == old(self).patch_set.keyed@,
            final(self).old_def == old(self).old_def,
    {
        self.patch_set.push(p);
    }

    fn old_has_key(&self, key: u64) -> (r: bool)
        ensures
            r == old_keys(self.model().old_def).contains(key),
    {
        let ghost keys = old_keys(self.model().old_def);
        let mut j: usize = 0;
        while j < self.old_def.len()
            invariant
                j <= self.old_def.len(),
                keys.len() == self.old_def@.len(),
                keys == old_keys(old_def_view(self.old_def@)),
                forall|i: int| 0 <= i < j ==> keys[i] != key,
            decreases self.old_def.len() - j,
        {
            assert(keys[j as int] == self.old_def@[j as int].0);
            if self.old_def[j].0 == key {
                assert(keys[j as int] == key);
                return true;
            }
            j = j + 1;
        }
        false
    }

    fn advance(&mut self) -> (r: (Option<DomItem<M>>, Option<DomItem<M>>))
        ensures
            (final(self).model(), r.0, r.1) == crate::diff_model::advance(old(self).model()),
            final(self).patch_set == old(self).patch_set,
            final(self).old_def == old(self).old_def,
    {
        let o = self.next_old();
        let n = self.next_new();
        (o, n)
    }

    /// Skip the rest of the sub tree whose opening item was just taken from the old walk.
    fn remove_sub_tree(&mut self) -> (r: Option<DomItem<M>>)
        requires
            old(self).inv(),
            enough_storage(old(self).model(), None),
        ensures
            final(self).inv(),
            enough_storage(final(self).model(), r),
            (final(self).model(), r) == remove_sub_tree(old(self).model()),
            steps(old(self).model(), final(self).model()),
        decreases old(self).old@.len(), 2nat,
    {
        let ghost m0 = self.model();
        let _len = self.old.len();
        let mut item = self.next_old();
        proof {
            if item is Some {
                lemma_pop_storage(m0.old);
            }
        }
        let ghost target = remove_sub_tree_loop(self.model(), item, 0);
        let mut depth: usize = 0;
        loop
            invariant
                self.inv(),
                enough_storage(self.model(), item),
                steps(m0, self.model()),
                m0 == old(self).model(),
                remove_sub_tree_loop(self.model(), item, depth as nat) == target,
                target == remove_sub_tree(m0),
                depth + self.old@.len() + held(item) <= m0.old.len(),
                m0.old.len() <= usize::MAX,
            decreases self.old@.len() + held(item),
        {
            match item {
                None => {
                    return None;
                },
                Some(i) => {
                    if self.defer_keyed && item_is_keyed(&i) {
                        let before = self.old.len();
                        let (_d, next) = self.defer_remove_sub_tree(i, None);
                        let after = self.old.len();
                        if (after as u128) + (if next.is_some() { 1u128 } else { 0u128 }) < (
                        before as u128) + 1 {
                            item = next;
                        } else {
                            return next;
                        }
                    } else if depth == 0 && item_is_up(&i) {
                        let _w = self.take_storage();
                        let ghost m1 = self.model();
                        let next = self.next_old();
                        proof {
                            if next is Some {
                                lemma_pop_storage(m1.old);
                            }
                        }
                        return next;
                    } else {
                        let is_component = match &i {
                            DomItem::Component { .. } => true,
                            _ => false,
                        };
                        if is_component {
                            let w = self.take_storage();
                            self.emit(Patch::RemoveComponent(w));
                        } else if item_uses_storage(&i) {
                            let _w = self.take_storage();
                        }
                        depth =
                        if item_opens_node(&i) {
                            depth + 1
                        } else if item_is_up(&i) {
                            depth - 1
                        } else {
                            depth
                        };
                        let ghost m1 = self.model();
                        item = self.next_old();
                        proof {
                            if item is Some {
                                lemma_pop_storage(m1.old);
                            }
                        }
                    }
                },
            }
        }
    }

    /// Set aside the keyed sub tree of the old dom whose opening `item` was just taken.
    fn defer_remove_sub_tree(
        &mut self,
        item: DomItem<M>,
        deferred: Option<(Vec<DomItem<M>>, Vec<S>)>,
    ) -> (r: (Option<(Vec<DomItem<M>>, Vec<S>)>, Option<DomItem<M>>))
        requires
            old(self).inv(),
            old(self).defer_keyed,
            is_keyed(item),
            enough_storage(old(self).model(), Some(item)),
            deferred matches Some(d) ==> d.1@.len() == storage_count(d.0@),
        ensures
            final(self).inv(),
            enough_storage(final(self).model(), r.1),
            (final(self).model(), deferred_view(r.0), r.1) == defer_remove_sub_tree(
                old(self).model(),
                item,
                deferred_view(deferred),
            ),
            steps(old(self).model(), final(self).model()),
            deferred is Some ==> r.0 is Some,
            r.0 matches Some(d) ==> d.1@.len() == storage_count(d.0@),
        decreases old(self).old@.len() + 1, 0nat,
    {
        let ghost m0 = self.model();
        let key: u64 = match &item {
            DomItem::Element { key: Some(k), .. } => *k,
            DomItem::Component { key: Some(k), .. } => *k,
            _ => {
                proof {
                    assert(false);
                }
                0
            },
        };
        assert(key == key_of(item));
        let w = self.take_storage();
        let ghost m1 = self.model();
        if self.old_has_key(key) {
            match deferred {
                Some((di0, ds0)) => {
                    let ghost d_in = (di0@, ds0@);
                    let mut di0 = di0;
                    let mut ds0 = ds0;
                    proof {
                        lemma_storage_count_push(di0@, item);
                    }
                    di0.push(item);
                    ds0.push(w);
                    let (mut di, mut ds, next) = self.defer_remove_loop();
                    proof {
                        lemma_storage_count_concat(di0@, di@);
                    }
                    let ghost dig = di@;
                    let ghost dsg = ds@;
                    di0.append(&mut di);
                    ds0.append(&mut ds);
                    assert(di0@ == d_in.0.push(item) + dig);
                    (Some((di0, ds0)), next)
                },
                None => {
                    let p = removal_patch_of(&item, w);
                    self.emit(p);
                    let next = self.remove_sub_tree();
                    (None, next)
                },
            }
        } else {
            let d1 = match deferred {
                Some((di0, ds0)) => {
                    let mut di0 = di0;
                    proof {
                        lemma_storage_count_push(di0@, DomItem::<M>::Key(key));
                    }
                    di0.push(DomItem::Key(key));
                    Some((di0, ds0))
                },
                None => None,
            };
            let idx = self.old_def.len();
            let mut items: Vec<DomItem<M>> = Vec::new();
            items.push(item);
            let mut sv: Vec<S> = Vec::new();
            sv.push(w);
            proof {
                lemma_storage_count_push(Seq::<DomItem<M>>::empty(), item);
                assert(Seq::<DomItem<M>>::empty().push(item) =~= items@);
            }
            let ghost e0 = (key, items, sv);
            self.old_def.push((key, items, sv));
            proof {
                assert(old_def_view(self.old_def@) =~= m1.old_def.push((key, seq![item], seq![w])));
                assert(defs_balanced(self.model().old_def)) by {
                    assert forall|i: int| 0 <= i < self.model().old_def.len() implies (
                    #[trigger] self.model().old_def[i]).2.len() == storage_count(
                        self.model().old_def[i].1,
                    ) by {
                        if i < m1.old_def.len() {
                            assert(self.model().old_def[i] == m1.old_def[i]);
                        }
                    }
                }
            }
            let ghost m2 = self.model();
            let (mut di, mut ds, next) = self.defer_remove_loop();
            let ghost dig = di@;
            let ghost dsg = ds@;
            let ghost m4 = self.model();
            let ghost odv = self.old_def@;
            let (k, mut items, mut sv) = self.old_def.remove(idx);
            proof {
                lemma_storage_count_concat(items@, di@);
            }
            items.append(&mut di);
            sv.append(&mut ds);
            let ghost e1 = (k, items, sv);
            self.old_def.insert(idx, (k, items, sv));
            proof {
                assert(self.old_def@ =~= odv.update(idx as int, e1));
                let e = m4.old_def[idx as int];
                assert(e == (odv[idx as int].0, odv[idx as int].1@, odv[idx as int].2@));
                assert(old_def_view(self.old_def@) =~= m4.old_def.update(
                    idx as int,
                    (e.0, e.1 + dig, e.2 + dsg),
                ));
                assert(defs_balanced(self.model().old_def)) by {
                    assert forall|i: int| 0 <= i < self.model().old_def.len() implies (
                    #[trigger] self.model().old_def[i]).2.len() == storage_count(
                        self.model().old_def[i].1,
                    ) by {
                        if i != idx {
                            assert(self.model().old_def[i] == m4.old_def[i]);
                        }
                    }
                }
            }
            (d1, next)
        }
    }

    /// Take the first item of a set aside old sub tree's children and collect the sub tree.
    fn defer_remove_loop(&mut self) -> (r: (Vec<DomItem<M>>, Vec<S>, Option<DomItem<M>>))
        requires
            old(self).inv(),
            old(self).defer_keyed,
            enough_storage(old(self).model(), None),
        ensures
            final(self).inv(),
            enough_storage(final(self).model(), r.2),
            r.1@.len() == storage_count(r.0@),
            ({
                let (m1, first) = old(self).model().pop_old();
                (final(self).model(), r.0@, r.1@, r.2) == defer_remove_loop(
                    m1,
                    first,
                    0,
                    seq![],
                    seq![],
                )
            }),
            steps(old(self).model(), final(self).model()),
        decreases old(self).old@.len(), 1nat,
    {
        let ghost m0 = self.model();
        let _len = self.old.len();
        let mut item = self.next_old();
        proof {
            if item is Some {
                lemma_pop_storage(m0.old);
            }
        }
        let ghost target = defer_remove_loop(self.model(), item, 0, seq![], seq![]);
        let mut di: Vec<DomItem<M>> = Vec::new();
        let mut ds: Vec<S> = Vec::new();
        let mut depth: usize = 0;
        assert(di@ =~= Seq::<DomItem<M>>::empty());
        assert(ds@ =~= Seq::<S>::empty());
        loop
            invariant
                self.inv(),
                self.defer_keyed,
                enough_storage(self.model(), item),
                steps(m0, self.model()),
                m0 == old(self).model(),
                target == defer_remove_loop(m0.pop_old().0, m0.pop_old().1, 0, seq![], seq![]),
                defer_remove_loop(self.model(), item, depth as nat, di@, ds@) == target,
                ds@.len() == storage_count(di@),
                depth + self.old@.len() + held(item) <= m0.old.len(),
                m0.old.len() <= usize::MAX,
            decreases self.old@.len() + held(item),
        {
            match item {
                None => {
                    return (di, ds, None);
                },
                Some(i) => {
                    if item_is_keyed(&i) {
                        let before = self.old.len();
                        let (d2, next) = self.defer_remove_sub_tree(i, Some((di, ds)));
                        match d2 {
                            Some((a, b)) => {
                                di = a;
                                ds = b;
                            },
                            None => {
                                proof {
                                    assert(false);
                                }
                                di = Vec::new();
                                ds = Vec::new();
                            },
                        }
                        let after = self.old.len();
                        if (after as u128) + (if next.is_some() { 1u128 } else { 0u128 }) < (
                        before as u128) + 1 {
                            item = next;
                        } else {
                            return (di, ds, next);
                        }
                    } else if depth == 0 && item_is_up(&i) {
                        let w = self.take_storage();
                        proof {
                            lemma_storage_count_push(di@, i);
                        }
                        di.push(i);
                        ds.push(w);
                        let ghost m1 = self.model();
                        let next = self.next_old();
                        proof {
                            if next is Some {
                                lemma_pop_storage(m1.old);
                            }
                        }
                        return (di, ds, next);
                    } else {
                        if item_uses_storage(&i) {
                            let w = self.take_storage();
                            ds.push(w);
                        }
                        depth =
                        if item_opens_node(&i) {
                            depth + 1
                        } else if item_is_up(&i) {
                            depth - 1
                        } else {
                            depth
                        };
                        proof {
                            lemma_storage_count_push(di@, i);
                        }
                        di.push(i);
                        let ghost m1 = self.model();
                        item = self.next_old();
                        proof {
                            if item is Some {
                                lemma_pop_storage(m1.old);
                            }
                        }
                    }
                },
            }
        }
    }

    /// Create the rest of the sub tree whose opening item was just taken from the new walk.
    fn add_sub_tree(&mut self) -> (r: Option<DomItem<M>>)
        requires
            old(self).inv(),
        ensures
            final(self).inv(),
            (final(self).model(), r) == add_sub_tree(old(self).model()),
            steps(old(self).model(), final(self).model()),
            final(self).old@ == old(self).old@,
            final(self).sto@ == old(self).sto@,
            final(self).old_def == old(self).old_def,
        decreases old(self).new@.len(), 2nat,
    {
        let ghost m0 = self.model();
        let _len = self.new.len();
        let mut item = self.next_new();
        let ghost target = add_sub_tree_loop(self.model(), item, 0);
        let mut depth: usize = 0;
        loop
            invariant
                self.inv(),
                steps(m0, self.model()),
                m0 == old(self).model(),
                self.old@ == old(self).old@,
                self.sto@ == old(self).sto@,
                self.old_def == old(self).old_def,
                add_sub_tree_loop(self.model(), item, depth as nat) == target,
                target == add_sub_tree(m0),
                depth + self.new@.len() + held(item) <= m0.new.len(),
                m0.new.len() <= usize::MAX,
            decreases self.new@.len() + held(item),
        {
            match item {
                None => {
                    return None;
                },
                Some(i) => {
                    if self.defer_keyed && item_is_keyed(&i) {
                        let before = self.new.len();
                        let (_d, next) = self.defer_add_sub_tree(i, None);
                        let after = self.new.len();
                        if (after as u128) + (if next.is_some() { 1u128 } else { 0u128 }) < (
                        before as u128) + 1 {
                            item = next;
                        } else {
                            return next;
                        }
                    } else if depth == 0 && item_is_up(&i) {
                        self.emit(Patch::Up);
                        return self.next_new();
                    } else {
                        depth =
                        if item_opens_node(&i) {
                            depth + 1
                        } else if item_is_up(&i) {
                            depth - 1
                        } else {
                            depth
                        };
                        let p = create_patch_of(i);
                        self.emit(p);
                        item = self.next_new();
                    }
                },
            }
        }
    }

    /// Set aside the keyed sub tree of the new dom whose opening `item` was just taken.
    fn defer_add_sub_tree(&mut self, item: DomItem<M>, deferred: Option<Vec<DomItem<M>>>) -> (r: (
        Option<Vec<DomItem<M>>>,
        Option<DomItem<M>>,
    ))
        requires
            old(self).inv(),
            old(self).defer_keyed,
            is_keyed(item),
        ensures
            final(self).inv(),
            (final(self).model(), deferred_items_view(r.0), r.1) == defer_add_sub_tree(
                old(self).model(),
                item,
                deferred_items_view(deferred),
            ),
            steps(old(self).model(), final(self).model()),
            deferred is Some ==> r.0 is Some,
            final(self).old@ == old(self).old@,
            final(self).sto@ == old(self).sto@,
            final(self).old_def == old(self).old_def,
        decreases old(self).new@.len() + 1, 0nat,
    {
        let ghost m0 = self.model();
        let key: u64 = match &item {
            DomItem::Element { key: Some(k), .. } => *k,
            DomItem::Component { key: Some(k), .. } => *k,
            _ => {
                proof {
                    assert(false);
                }
                0
            },
        };
        assert(key == key_of(item));
        if self.new_has_key(key) {
            match deferred {
                Some(d0) => {
                    let mut d0 = d0;
                    d0.push(item);
                    let (mut dd, next) = self.defer_add_loop();
                    let ghost ddg = dd@;
                    d0.append(&mut dd);
                    assert(d0@ == deferred_items_view(deferred).unwrap().push(item) + ddg);
                    (Some(d0), next)
                },
                None => {
                    let p = create_patch_of(item);
                    self.emit(p);
                    let next = self.add_sub_tree();
                    (None, next)
                },
            }
        } else {
            let d1 = match deferred {
                Some(d0) => {
                    let mut d0 = d0;
                    d0.push(DomItem::Key(key));
                    Some(d0)
                },
                None => {
                    self.emit(Patch::ReferenceKey(key));
                    None
                },
            };
            let ghost m1 = self.model();
            let idx = self.new_def.len();
            let mut items: Vec<DomItem<M>> = Vec::new();
            items.push(item);
            self.new_def.push((key, items));
            proof {
                assert(new_def_view(self.new_def@) =~= m1.new_def.push((key, seq![item])));
            }
            let (mut dd, next) = self.defer_add_loop();
            let ghost ddg = dd@;
            let ghost m4 = self.model();
            let ghost ndv = self.new_def@;
            let (k, mut items) = self.new_def.remove(idx);
            items.append(&mut dd);
            let ghost e1 = (k, items);
            self.new_def.insert(idx, (k, items));
            proof {
                assert(self.new_def@ =~= ndv.update(idx as int, e1));
                let e = m4.new_def[idx as int];
                assert(e == (ndv[idx as int].0, ndv[idx as int].1@));
                assert(new_def_view(self.new_def@) =~= m4.new_def.update(
                    idx as int,
                    (e.0, e.1 + ddg),
                ));
            }
            (d1, next)
        }
    }

    /// Take the first item of a set aside new sub tree's children and collect the sub tree.
    fn defer_add_loop(&mut self) -> (r: (Vec<DomItem<M>>, Option<DomItem<M>>))
        requires
            old(self).inv(),
            old(self).defer_keyed,
        ensures
            final(self).inv(),
            ({
                let (m1, first) = old(self).model().pop_new();
                (final(self).model(), r.0@, r.1) == defer_add_loop(m1, first, 0, seq![])
            }),
            steps(old(self).model(), final(self).model()),
            final(self).old@ == old(self).old@,
            final(self).sto@ == old(self).sto@,
            final(self).old_def == old(self).old_def,
        decreases old(self).new@.len(), 1nat,
    {
        let ghost m0 = self.model();
        let _len = self.new.len();
        let mut item = self.next_new();
        let ghost target = defer_add_loop(self.model(), item, 0, seq![]);
        let mut d: Vec<DomItem<M>> = Vec::new();
        let mut depth: usize = 0;
        assert(d@ =~= Seq::<DomItem<M>>::empty());
        loop
            invariant
                self.inv(),
                self.defer_keyed,
                steps(m0, self.model()),
                m0 == old(self).model(),
                self.old@ == old(self).old@,
                self.sto@ == old(self).sto@,
                self.old_def == old(self).old_def,
                target == defer_add_loop(m0.pop_new().0, m0.pop_new().1, 0, seq![]),
                defer_add_loop(self.model(), item, depth as nat, d@) == target,
                depth + self.new@.len() + held(item) <= m0.new.len(),
                m0.new.len() <= usize::MAX,
            decreases self.new@.len() + held(item),
        {
            match item {
                None => {
                    return (d, None);
                },
                Some(i) => {
                    if item_is_keyed(&i) {
                        let before = self.new.len();
                        let (d2, next) = self.defer_add_sub_tree(i, Some(d));
                        match d2 {
                            Some(a) => {
                                d = a;
                            },
                            None => {
                                proof {
                                    assert(false);
                                }
                                d = Vec::new();
                            },
                        }
                        let after = self.new.len();
                        if (after as u128) + (if next.is_some() { 1u128 } else { 0u128 }) < (
                        before as u128) + 1 {
                            item = next;
                        } else {
                            return (d, next);
                        }
                    } else if depth == 0 && item_is_up(&i) {
                        d.push(i);
                        let next = self.next_new();
                        return (d, next);
                    } else {
                        depth =
                        if item_opens_node(&i) {
                            depth + 1
                        } else if item_is_up(&i) {
                            depth - 1
                        } else {
                            depth
                        };
                        d.push(i);
                        item = self.next_new();
                    }
                },
            }
        }
    }

    /// Emit the patches that remove `item` of the old dom.
    fn remove(&mut self, item: DomItem<M>) -> (r: Option<DomItem<M>>)
        requires
            old(self).inv(),
            enough_storage(old(self).model(), Some(item)),
        ensures
            final(self).inv(),
            enough_storage(final(self).model(), r),
            (final(self).model(), r) == remove_item(old(self).model(), item),
            steps(old(self).model(), final(self).model()),
    {
        let ghost m0 = self.model();
        if self.defer_keyed && item_is_keyed(&item) {
            let (_d, next) = self.defer_remove_sub_tree(item, None);
            return next;
        }
        match item {
            DomItem::Element { .. } | DomItem::Text(_) | DomItem::Component { .. } => {
                let w = self.take_storage();
                let p = removal_patch_of(&item, w);
                self.emit(p);
                self.remove_sub_tree()
            },
            DomItem::UnsafeInnerHtml(_) => {
                self.emit(Patch::UnsetInnerHtml);
                let ghost m1 = self.model();
                let next = self.next_old();
                proof {
                    if next is Some {
                        lemma_pop_storage(m1.old);
                    }
                }
                next
            },
            DomItem::Event { trigger, .. } => {
                let w = self.take_storage();
                self.emit(Patch::RemoveListener { trigger, take: w });
                let ghost m1 = self.model();
                let next = self.next_old();
                proof {
                    if next is Some {
                        lemma_pop_storage(m1.old);
                    }
                }
                next
            },
            DomItem::Attr { name, .. } => {
                self.emit(Patch::RemoveAttribute(name));
                let ghost m1 = self.model();
                let next = self.next_old();
                proof {
                    if next is Some {
                        lemma_pop_storage(m1.old);
                    }
                }
                next
            },
            DomItem::Up => Some(DomItem::Up),
            DomItem::Key(_) => {
                let ghost m1 = self.model();
                let next = self.next_old();
                proof {
                    if next is Some {
                        lemma_pop_storage(m1.old);
                    }
                }
                next
            },
        }
    }

    /// Emit the patches that create `item` of the new dom.
    fn add(&mut self, item: DomItem<M>) -> (r: Option<DomItem<M>>)
        requires
            old(self).inv(),
        ensures
            final(self).inv(),
            (final(self).model(), r) == add_item(old(self).model(), item),
            steps(old(self).model(), final(self).model()),
            final(self).old@ == old(self).old@,
            final(self).sto@ == old(self).sto@,
            final(self).old_def == old(self).old_def,
    {
        if self.defer_keyed && item_is_keyed(&item) {
            let (_d, next) = self.defer_add_sub_tree(item, None);
            next
        } else if item_is_up(&item) {
            Some(item)
        } else if item_opens_node(&item) {
            let p = create_patch_of(item);
            self.emit(p);
            self.add_sub_tree()
        } else {
            let p = create_patch_of(item);
            self.emit(p);
            self.next_new()
        }
    }

    /// Compare the item `o` of the old dom with the item `n` of the new dom.
    fn compare(&mut self, o: DomItem<M>, n: DomItem<M>) -> (r: (
        Option<DomItem<M>>,
        Option<DomItem<M>>,
    ))
        requires
            old(self).inv(),
            enough_storage(old(self).model(), Some(o)),
        ensures
            final(self).inv(),
            enough_storage(final(self).model(), r.0),
            (final(self).model(), r.0, r.1) == compare(old(self).model(), o, n),
            steps(old(self).model(), final(self).model()),
    {
        let ghost m0 = self.model();
        let c = match_items(&o, &n);
        match c {
            Match::KeyedElements => {
                let w = self.take_storage();
                self.emit(Patch::MoveElement(w));
                self.advance_checked()
            },
            Match::Elements => {
                let w = self.take_storage();
                self.emit(Patch::CopyElement(w));
                self.advance_checked()
            },
            Match::Texts => {
                let w = self.take_storage();
                match (o, n) {
                    (DomItem::Text(ot), DomItem::Text(nt)) => {
                        if ot == nt {
                            self.emit(Patch::CopyText(w));
                        } else {
                            self.emit(Patch::ReplaceText { take: w, text: nt });
                        }
                    },
                    _ => {
                        proof {
                            assert(false);
                        }
                    },
                }
                self.advance_checked()
            },
            Match::InnerHtml => {
                match (o, n) {
                    (DomItem::UnsafeInnerHtml(oh), DomItem::UnsafeInnerHtml(nh)) => {
                        if oh != nh {
                            self.emit(Patch::SetInnerHtml(nh));
                        }
                    },
                    _ => {
                        proof {
                            assert(false);
                        }
                    },
                }
                self.advance_checked()
            },
            Match::KeyedComponents | Match::Components => {
                let keyed = match c {
                    Match::KeyedComponents => true,
                    _ => false,
                };
                let w = self.take_storage();
                match (o, n) {
                    (DomItem::Component { msg: om, .. }, DomItem::Component { msg: nm, .. }) => {
                        if om == nm {
                            if keyed {
                                self.emit(Patch::MoveComponent(w));
                            } else {
                                self.emit(Patch::CopyComponent(w));
                            }
                        } else if keyed {
                            self.emit(Patch::MupdateComponent { take: w, msg: nm });
                        } else {
                            self.emit(Patch::UpdateComponent { take: w, msg: nm });
                        }
                    },
                    _ => {
                        proof {
                            assert(false);
                        }
                    },
                }
                self.advance_checked()
            },
            Match::Attrs => {
                match (o, n) {
                    (DomItem::Attr { name: on, value: ov }, DomItem::Attr { name: nn, value: nv }) => {
                        if on != nn {
                            self.emit(Patch::RemoveAttribute(on));
                            self.emit(Patch::SetAttribute { name: nn, value: nv });
                        } else if ov != nv || is_special_attribute(&nn) {
                            self.emit(Patch::SetAttribute { name: nn, value: nv });
                        }
                    },
                    _ => {
                        proof {
                            assert(false);
                        }
                    },
                }
                self.advance_checked()
            },
            Match::Events => {
                let w = self.take_storage();
                match (o, n) {
                    (
                        DomItem::Event { trigger: ot, handler: oh },
                        DomItem::Event { trigger: nt, handler: nh },
                    ) => {
                        if ot != nt || !handlers_equal(&oh, &nh) {
                            self.emit(Patch::RemoveListener { trigger: ot, take: w });
                            self.emit(Patch::AddListener { trigger: nt, handler: nh });
                        } else {
                            self.emit(Patch::CopyListener(w));
                        }
                    },
                    _ => {
                        proof {
                            assert(false);
                        }
                    },
                }
                self.advance_checked()
            },
            Match::Ups => {
                let _w = self.take_storage();
                self.emit(Patch::Up);
                self.advance_checked()
            },
            Match::Differ => {
                let on = self.remove(o);
                let nn = self.add(n);
                (on, nn)
            },
        }
    }

    /// Take the next item of both walks, after the old item in hand gave up its storage.
    fn advance_checked(&mut self) -> (r: (Option<DomItem<M>>, Option<DomItem<M>>))
        requires
            old(self).inv(),
            enough_storage(old(self).model(), None),
        ensures
            final(self).inv(),
            enough_storage(final(self).model(), r.0),
            (final(self).model(), r.0, r.1) == crate::diff_model::advance(old(self).model()),
            steps(old(self).model(), final(self).model()),
    {
        proof {
            if old(self).old@.len() > 0 {
                lemma_pop_storage(old(self).old@);
            }
        }
        self.advance()
    }

    /// One step of the lock step walk.
    fn step(&mut self, o: Option<DomItem<M>>, n: Option<DomItem<M>>) -> (r: (
        Option<DomItem<M>>,
        Option<DomItem<M>>,
    ))
        requires
            old(self).inv(),
            enough_storage(old(self).model(), o),
        ensures
            final(self).inv(),
            enough_storage(final(self).model(), r.0),
            (final(self).model(), r.0, r.1) == walk_step(old(self).model(), o, n),
            steps(old(self).model(), final(self).model()),
    {
        match (o, n) {
            (None, Some(ni)) => {
                let nn = self.add(ni);
                (None, nn)
            },
            (Some(oi), None) => {
                let on = self.remove(oi);
                (on, None)
            },
            (Some(oi), Some(ni)) => self.compare(oi, ni),
            (None, None) => (None, None),
        }
    }

    /// The lock step walk over both doms.
    fn walk(&mut self, o_in: Option<DomItem<M>>, n_in: Option<DomItem<M>>)
        requires
            old(self).inv(),
            enough_storage(old(self).model(), o_in),
        ensures
            final(self).inv(),
            final(self).model() == walk(old(self).model(), o_in, n_in),
            steps(old(self).model(), final(self).model()),
    {
        let ghost m0 = self.model();
        let ghost target = walk(self.model(), o_in, n_in);
        let mut o = o_in;
        let mut n = n_in;
        loop
            invariant
                self.inv(),
                enough_storage(self.model(), o),
                steps(m0, self.model()),
                m0 == old(self).model(),
                target == walk(old(self).model(), o_in, n_in),
                walk(self.model(), o, n) == target,
            decreases walk_measure(self.model(), o, n),
        {
            let before = (self.old.len() as u128) + (self.new.len() as u128) + (if o.is_some() {
                1u128
            } else {
                0u128
            }) + (if n.is_some() {
                1u128
            } else {
                0u128
            });
            let ghost mb = self.model();
            let ghost ob = o;
            let ghost nb = n;
            let (o2, n2) = self.step(o, n);
            let after = (self.old.len() as u128) + (self.new.len() as u128) + (if o2.is_some() {
                1u128
            } else {
                0u128
            }) + (if n2.is_some() {
                1u128
            } else {
                0u128
            });
            assert(after == walk_measure(self.model(), o2, n2));
            assert(before == walk_measure(mb, ob, nb));
            if after < before {
                o = o2;
                n = n2;
            } else {
                assert(walk(mb, ob, nb) == self.model());
                return ;
            }
        }
    }

    /// Diff the keyed sub trees that were set aside, and collect all patches.
    fn finish(self) -> (r: PatchSet<M, S>)
        requires
            self.inv(),
            self.defer_keyed,
        ensures
            ({
                let (p, k, nd) = finish_old(
                    self.model().patches,
                    Map::empty(),
                    self.model().old_def,
                    self.model().new_def,
                );
                (r.patches@, r.keyed_seqs()) == (p, finish_new(k, nd))
            }),
        decreases 1nat,
    {
        let ghost m0 = self.model();
        let DiffImpl { patch_set, old_def, new_def, .. } = self;
        let mut ps = patch_set;
        let mut od = old_def;
        let mut nd = new_def;
        proof {
            assert(keyed_view(ps.keyed@) =~= Map::<u64, Seq<Patch<M, S>>>::empty());
        }
        let ghost target = finish_old(
            ps.patches@,
            keyed_view(ps.keyed@),
            old_def_view(od@),
            new_def_view(nd@),
        );
        while od.len() > 0
            invariant
                M::obeys_eq_spec(),
                defs_balanced(old_def_view(od@)),
                finish_old(ps.patches@, keyed_view(ps.keyed@), old_def_view(od@), new_def_view(nd@))
                    == target,
            decreases od.len(),
        {
            let ghost odv = old_def_view(od@);
            let ghost ndv = new_def_view(nd@);
            let ghost pk = keyed_view(ps.keyed@);
            let ghost pp = ps.patches@;
            let (key, old_items, storage) = od.remove(0);
            assert(odv[0] == (key, old_items@, storage@));
            assert(old_def_view(od@) =~= odv.drop_first());
            assert(defs_balanced(old_def_view(od@))) by {
                assert forall|i: int| 0 <= i < old_def_view(od@).len() implies (
                #[trigger] old_def_view(od@)[i]).2.len() == storage_count(old_def_view(od@)[i].1) by {
                    assert(old_def_view(od@)[i] == odv[i + 1]);
                }
            }
            match find_new_entry(&nd, key) {
                Some(j) => {
                    let (_k, new_items) = nd.remove(j);
                    assert(ndv[j as int].1 == new_items@);
                    assert(new_def_view(nd@) =~= ndv.remove(j as int));
                    let mut sub = diff_with(old_items, new_items, storage, false);
                    let ghost sp = sub.patches;
                    sub.root_key(key);
                    ps.extend(sub);
                    proof {
                        assert(ps.patches@ =~= pp);
                        assert(keyed_view(ps.keyed@) =~= pk.insert(key, sp@));
                    }
                },
                None => {
                    let empty_new: Vec<DomItem<M>> = Vec::new();
                    let sub = diff_with(old_items, empty_new, storage, false);
                    ps.extend(sub);
                    proof {
                        assert(keyed_view(ps.keyed@) =~= pk);
                    }
                },
            }
        }
        let ghost target2 = finish_new(keyed_view(ps.keyed@), new_def_view(nd@));
        assert(ps.patches@ == target.0);
        assert(target2 == finish_new(target.1, target.2));
        while nd.len() > 0
            invariant
                M::obeys_eq_spec(),
                finish_new(keyed_view(ps.keyed@), new_def_view(nd@)) == target2,
                ps.patches@ == target.0,
            decreases nd.len(),
        {
            let ghost ndv = new_def_view(nd@);
            let ghost pk = keyed_view(ps.keyed@);
            let ghost pp = ps.patches@;
            let (key, new_items) = nd.remove(0);
            assert(ndv[0] == (key, new_items@));
            assert(new_def_view(nd@) =~= ndv.drop_first());
            let empty_old: Vec<DomItem<M>> = Vec::new();
            let empty_sto: Vec<S> = Vec::new();
            let mut sub = diff_with(empty_old, new_items, empty_sto, false);
            let ghost sp = sub.patches;
            sub.root_key(key);
            ps.extend(sub);
            proof {
                assert(ps.patches@ =~= pp);
                assert(keyed_view(ps.keyed@) =~= pk.insert(key, sp@));
            }
        }
        ps
    }

    fn new_has_key(&self, key: u64) -> (r: bool)
        ensures
            r == new_keys(self.model().new_def).contains(key),
    {
        let ghost keys = new_keys(self.model().new_def);
        let mut j: usize = 0;
        while j < self.new_def.len()
            invariant
                j <= self.new_def.len(),
                keys.len() == self.new_def@.len(),
                keys == new_keys(new_def_view(self.new_def@)),
                forall|i: int| 0 <= i < j ==> keys[i] != key,
            decreases self.new_def.len() - j,
        {
            assert(keys[j as int] == self.new_def@[j as int].0);
            if self.new_def[j].0 == key {
                assert(keys[j as int] == key);
                return true;
            }
            j = j + 1;
        }
        false
    }
}

} // verus!
