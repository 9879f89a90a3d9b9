//! What the diff promises of the storage of the old dom when keyed sub trees are set aside: over
//! its top level patch list and all its keyed patch lists, no storage entry is taken over more
//! often than the storage holds it.
use vstd::prelude::*;
use vstd::multiset::Multiset;
use vstd::std_specs::cmp::PartialEqSpec;
use crate::vdom::{
    DomItem, is_keyed, lemma_storage_count_concat, lemma_storage_count_push, storage_count,
    uses_storage,
};
use crate::patch::{Patch, patch_handle, patch_handles};
use crate::diff::{defs_balanced, enough_storage};
use crate::diff_model::{
    DiffModel, Match, add_item, add_sub_tree, add_sub_tree_loop, compare, create_patch,
    defer_add_loop, defer_add_sub_tree, defer_remove_loop, defer_remove_sub_tree, diff_result,
    finish_new, finish_old, held, held_sto, key_of, match_of, old_keys, removal_patch,
    remove_item, remove_sub_tree, remove_sub_tree_loop, run, start, walk, walk_measure, walk_step,
};

verus! {

/// The storage entries the set aside old sub trees hold.
pub open spec fn set_aside_entries<M, S>(od: Seq<(u64, Seq<DomItem<M>>, Seq<S>)>) -> Multiset<S>
    decreases od.len(),
{
    if od.len() == 0 {
        Multiset::empty()
    } else {
        set_aside_entries(od.drop_last()).add(od.last().2.to_multiset())
    }
}

/// What a diff in progress still holds of the storage it was handed: the entries its patches
/// took over, those of the old sub trees it set aside, and those it has not reached yet.
pub open spec fn held_entries<M, S>(m: DiffModel<M, S>) -> Multiset<S> {
    patch_handles(m.patches).to_multiset().add(set_aside_entries(m.old_def)).add(
        m.sto.to_multiset(),
    )
}

/// The storage a set aside sub tree being collected holds so far.
pub open spec fn collected<M, S>(d: Option<(Seq<DomItem<M>>, Seq<S>)>) -> Multiset<S> {
    match d {
        Some(x) => x.1.to_multiset(),
        None => Multiset::empty(),
    }
}

/// A sub tree being collected comes with exactly its storage.
pub open spec fn collected_balanced<M, S>(d: Option<(Seq<DomItem<M>>, Seq<S>)>) -> bool {
    d matches Some(x) ==> x.1.len() == storage_count(x.0)
}

// ---------------------------------------------------------------------------------------------
// Multisets of storage entries.
// ---------------------------------------------------------------------------------------------

proof fn lemma_handles_emit<M, S>(ps: Seq<Patch<M, S>>, p: Patch<M, S>)
    ensures
        patch_handles(ps.push(p)).to_multiset() == patch_handles(ps).to_multiset().add(
            patch_handle(p).to_multiset(),
        ),
{
    assert(ps.push(p).drop_last() =~= ps);
    vstd::seq_lib::lemma_multiset_commutative(patch_handles(ps), patch_handle(p));
}

/// A patch that takes over no entry leaves what the patches took over alone.
proof fn lemma_handles_emit_none<M, S>(ps: Seq<Patch<M, S>>, p: Patch<M, S>)
    requires
        patch_handle(p).len() == 0,
    ensures
        patch_handles(ps.push(p)).to_multiset() == patch_handles(ps).to_multiset(),
{
    broadcast use vstd::multiset::group_multiset_axioms, vstd::seq_lib::group_to_multiset_ensures;

    lemma_handles_emit(ps, p);
    assert(patch_handle(p) =~= Seq::<S>::empty());
    assert(patch_handle(p).to_multiset() =~= Multiset::<S>::empty());
    assert(patch_handles(ps).to_multiset().add(Multiset::empty()) =~= patch_handles(
        ps,
    ).to_multiset());
}

/// A patch that takes over the entry `w`.
proof fn lemma_handles_emit_one<M, S>(ps: Seq<Patch<M, S>>, p: Patch<M, S>, w: S)
    requires
        patch_handle(p) == seq![w],
    ensures
        patch_handles(ps.push(p)).to_multiset() == patch_handles(ps).to_multiset().insert(w),
{
    broadcast use vstd::multiset::group_multiset_axioms, vstd::seq_lib::group_to_multiset_ensures;

    lemma_handles_emit(ps, p);
    assert(seq![w] =~= Seq::<S>::empty().push(w));
    assert(Seq::<S>::empty().to_multiset() =~= Multiset::<S>::empty());
    assert(patch_handles(ps).to_multiset().add(Multiset::empty().insert(w)) =~= patch_handles(
        ps,
    ).to_multiset().insert(w));
}

/// What holds more than `b` together with something else holds more than `b`.
proof fn lemma_subset_drop<S>(a: Multiset<S>, c: Multiset<S>, b: Multiset<S>)
    requires
        a.add(c).subset_of(b.add(Multiset::empty())),
    ensures
        a.subset_of(b),
{
    broadcast use vstd::multiset::group_multiset_axioms;

    assert forall|v: S| a.count(v) <= b.count(v) by {
        assert(a.add(c).count(v) <= b.add(Multiset::empty()).count(v));
    }
}

/// Taking the next storage entry.
proof fn lemma_take<M, S>(m: DiffModel<M, S>)
    requires
        m.sto.len() >= 1,
    ensures
        m.sto.to_multiset() == m.take_sto().0.sto.to_multiset().insert(m.take_sto().1),
{
    broadcast use vstd::multiset::group_multiset_axioms, vstd::seq_lib::group_to_multiset_ensures;

    let s = m.sto;
    assert(s.remove(0) =~= s.drop_first());
    assert(s.to_multiset().count(s[0]) > 0);
    assert(s.to_multiset() =~= s.remove(0).to_multiset().insert(s[0]));
}

/// Taking the next storage entry and dropping it.
proof fn lemma_take_drop<M, S>(m: DiffModel<M, S>)
    requires
        m.sto.len() >= 1,
    ensures
        held_entries(m.take_sto().0).subset_of(held_entries(m)),
        held_entries(m.take_sto().0).insert(m.take_sto().1) == held_entries(m),
{
    broadcast use vstd::multiset::group_multiset_axioms;

    lemma_take(m);
    assert(held_entries(m.take_sto().0).insert(m.take_sto().1) =~= held_entries(m));
}

/// Taking the next storage entry into a patch.
proof fn lemma_take_emit<M, S>(m: DiffModel<M, S>, p: Patch<M, S>)
    requires
        m.sto.len() >= 1,
        patch_handle(p) == seq![m.take_sto().1],
    ensures
        held_entries(m.take_sto().0.emit(p)) == held_entries(m),
{
    broadcast use vstd::multiset::group_multiset_axioms;

    lemma_take(m);
    lemma_handles_emit_one(m.patches, p, m.take_sto().1);
    assert(held_entries(m.take_sto().0.emit(p)) =~= held_entries(m));
}

/// A patch that takes over nothing.
proof fn lemma_emit_none<M, S>(m: DiffModel<M, S>, p: Patch<M, S>)
    requires
        patch_handle(p).len() == 0,
    ensures
        held_entries(m.emit(p)) == held_entries(m),
{
    lemma_handles_emit_none(m.patches, p);
}

proof fn lemma_set_aside_push<M, S>(
    od: Seq<(u64, Seq<DomItem<M>>, Seq<S>)>,
    e: (u64, Seq<DomItem<M>>, Seq<S>),
)
    ensures
        set_aside_entries(od.push(e)) == set_aside_entries(od).add(e.2.to_multiset()),
{
    assert(od.push(e).drop_last() =~= od);
}

/// Extending the storage of one set aside sub tree.
proof fn lemma_set_aside_update<M, S>(
    od: Seq<(u64, Seq<DomItem<M>>, Seq<S>)>,
    i: int,
    di: Seq<DomItem<M>>,
    ds: Seq<S>,
)
    requires
        0 <= i < od.len(),
    ensures
        set_aside_entries(od.update(i, (od[i].0, od[i].1 + di, od[i].2 + ds))) == set_aside_entries(
            od,
        ).add(ds.to_multiset()),
    decreases od.len(),
{
    broadcast use vstd::multiset::group_multiset_axioms;

    let u = od.update(i, (od[i].0, od[i].1 + di, od[i].2 + ds));
    vstd::seq_lib::lemma_multiset_commutative(od[i].2, ds);
    if i == od.len() - 1 {
        assert(u.drop_last() =~= od.drop_last());
        assert(set_aside_entries(u) =~= set_aside_entries(od).add(ds.to_multiset()));
    } else {
        lemma_set_aside_update(od.drop_last(), i, di, ds);
        assert(u.drop_last() =~= od.drop_last().update(i, (od[i].0, od[i].1 + di, od[i].2 + ds)));
        assert(u.last() == od.last());
        assert(set_aside_entries(u) =~= set_aside_entries(od).add(ds.to_multiset()));
    }
}

/// The storage of the first set aside sub tree, and of the others.
proof fn lemma_set_aside_front<M, S>(od: Seq<(u64, Seq<DomItem<M>>, Seq<S>)>)
    requires
        od.len() >= 1,
    ensures
        set_aside_entries(od) == od[0].2.to_multiset().add(set_aside_entries(od.drop_first())),
    decreases od.len(),
{
    broadcast use vstd::multiset::group_multiset_axioms;

    if od.len() == 1 {
        assert(od.drop_last() =~= Seq::<(u64, Seq<DomItem<M>>, Seq<S>)>::empty());
        assert(od.drop_first() =~= Seq::<(u64, Seq<DomItem<M>>, Seq<S>)>::empty());
        assert(set_aside_entries(od) =~= od[0].2.to_multiset().add(
            set_aside_entries(od.drop_first()),
        ));
    } else {
        lemma_set_aside_front(od.drop_last());
        assert(od.drop_last().drop_first() =~= od.drop_first().drop_last());
        assert(od.drop_first().last() == od.last());
        assert(set_aside_entries(od) =~= od[0].2.to_multiset().add(
            set_aside_entries(od.drop_first()),
        ));
    }
}

/// The storage the rest of the old walk owns, with its first item taken in hand.
proof fn lemma_pop_enough<M, S>(m: DiffModel<M, S>)
    requires
        m.sto.len() >= storage_count(m.old),
    ensures
        enough_storage(m.pop_old().0, m.pop_old().1),
{
}

// ---------------------------------------------------------------------------------------------
// The new side takes no storage entry.
// ---------------------------------------------------------------------------------------------

/// `r` comes from `m` by work on the new side alone.
pub open spec fn new_side_only<M, S>(m: DiffModel<M, S>, r: DiffModel<M, S>) -> bool {
    &&& r.old == m.old
    &&& r.sto == m.sto
    &&& r.old_def == m.old_def
    &&& held_entries(r) == held_entries(m)
}

proof fn lemma_create_takes_none<M, S>(m: DiffModel<M, S>, i: DomItem<M>)
    ensures
        new_side_only(m, m.emit(create_patch::<M, S>(i))),
{
    lemma_emit_none(m, create_patch::<M, S>(i));
}

proof fn lemma_add_sub_tree_none<M, S>(m: DiffModel<M, S>)
    ensures
        new_side_only(m, add_sub_tree(m).0),
    decreases m.new.len(), 2nat,
{
    let (m1, i) = m.pop_new();
    lemma_add_loop_none(m1, i, 0);
}

proof fn lemma_add_loop_none<M, S>(m: DiffModel<M, S>, item: Option<DomItem<M>>, depth: nat)
    ensures
        new_side_only(m, add_sub_tree_loop(m, item, depth).0),
    decreases m.new.len() + held(item), 1nat,
{
    match item {
        None => {},
        Some(i) => {
            if is_keyed(i) && m.defer {
                lemma_defer_add_none(m, i, None);
                let (m2, _d, next) = defer_add_sub_tree(m, i, None);
                if m2.new.len() + held(next) < m.new.len() + 1 {
                    lemma_add_loop_none(m2, next, depth);
                }
            } else if i is Up && depth == 0 {
                lemma_emit_none(m, Patch::<M, S>::Up);
            } else {
                lemma_create_takes_none(m, i);
                let (m2, next) = m.emit(create_patch(i)).pop_new();
                lemma_add_loop_none(m2, next, crate::diff_model::next_depth(i, depth));
            }
        },
    }
}

proof fn lemma_defer_add_none<M, S>(
    m: DiffModel<M, S>,
    item: DomItem<M>,
    deferred: Option<Seq<DomItem<M>>>,
)
    ensures
        new_side_only(m, defer_add_sub_tree(m, item, deferred).0),
    decreases m.new.len() + 1, 0nat,
{
    let key = key_of(item);
    if crate::diff_model::new_keys(m.new_def).contains(key) {
        match deferred {
            Some(d) => {
                let (m2, first) = m.pop_new();
                lemma_defer_add_loop_none(m2, first, 0, seq![]);
            },
            None => {
                lemma_create_takes_none(m, item);
                lemma_add_sub_tree_none(m.emit(create_patch(item)));
            },
        }
    } else {
        let m1 = match deferred {
            Some(d) => m,
            None => m.emit(Patch::ReferenceKey(key)),
        };
        if deferred is None {
            lemma_emit_none(m, Patch::<M, S>::ReferenceKey(key));
        }
        let idx = m1.new_def.len() as int;
        let m2 = DiffModel { new_def: m1.new_def.push((key, seq![item])), ..m1 };
        let (m3, first) = m2.pop_new();
        lemma_defer_add_loop_none(m3, first, 0, seq![]);
    }
}

proof fn lemma_defer_add_loop_none<M, S>(
    m: DiffModel<M, S>,
    item: Option<DomItem<M>>,
    depth: nat,
    d: Seq<DomItem<M>>,
)
    ensures
        new_side_only(m, defer_add_loop(m, item, depth, d).0),
    decreases m.new.len() + held(item), 1nat,
{
    match item {
        None => {},
        Some(i) => {
            if is_keyed(i) {
                lemma_defer_add_none(m, i, Some(d));
                let (m2, d2, next) = defer_add_sub_tree(m, i, Some(d));
                let dd = match d2 {
                    Some(x) => x,
                    None => d,
                };
                if m2.new.len() + held(next) < m.new.len() + 1 {
                    lemma_defer_add_loop_none(m2, next, depth, dd);
                }
            } else if i is Up && depth == 0 {
            } else {
                let (m2, next) = m.pop_new();
                lemma_defer_add_loop_none(m2, next, crate::diff_model::next_depth(i, depth), d.push(i));
            }
        },
    }
}

/// Adding an item of the new dom takes no storage entry.
proof fn lemma_add_item_none<M, S>(m: DiffModel<M, S>, y: DomItem<M>)
    ensures
        new_side_only(m, add_item(m, y).0),
{
    if is_keyed(y) && m.defer {
        lemma_defer_add_none(m, y, None);
    } else if y is Up {
    } else if crate::vdom::opens_node(y) {
        lemma_create_takes_none(m, y);
        lemma_add_sub_tree_none(m.emit(create_patch(y)));
    } else {
        lemma_create_takes_none(m, y);
    }
}

// ---------------------------------------------------------------------------------------------
// The old side: each entry it takes goes to a patch, to a set aside sub tree, or is dropped.
// ---------------------------------------------------------------------------------------------

/// `r` comes from `m` by work on the old side that keeps each set aside sub tree with exactly
/// its storage, holds no storage entry `m` did not hold, and leaves enough storage for what is
/// left of the old walk.
pub open spec fn old_side_keeps<M, S>(
    m: DiffModel<M, S>,
    r: DiffModel<M, S>,
    next: Option<DomItem<M>>,
) -> bool {
    &&& held_entries(r).subset_of(held_entries(m))
    &&& defs_balanced(r.old_def)
    &&& enough_storage(r, next)
    &&& r.old_def.len() >= m.old_def.len()
}

proof fn lemma_remove_sub_tree_keeps<M, S>(m: DiffModel<M, S>)
    requires
        enough_storage(m, None),
        defs_balanced(m.old_def),
    ensures
        old_side_keeps(m, remove_sub_tree(m).0, remove_sub_tree(m).1),
    decreases m.old.len(), 2nat,
{
    let (m1, i) = m.pop_old();
    lemma_pop_enough(m);
    lemma_remove_loop_keeps(m1, i, 0);
}

proof fn lemma_remove_loop_keeps<M, S>(m: DiffModel<M, S>, item: Option<DomItem<M>>, depth: nat)
    requires
        enough_storage(m, item),
        defs_balanced(m.old_def),
    ensures
        old_side_keeps(m, remove_sub_tree_loop(m, item, depth).0, remove_sub_tree_loop(m, item, depth).1),
    decreases m.old.len() + held(item), 1nat,
{
    broadcast use vstd::multiset::group_multiset_axioms;

    match item {
        None => {
            let r = remove_sub_tree_loop(m, item, depth).0;
            assert(r == m);
            assert(held_entries(r).subset_of(held_entries(m)));
        },
        Some(i) => {
            if is_keyed(i) && m.defer {
                lemma_defer_remove_keeps(m, i, None);
                let (m2, d2, next) = defer_remove_sub_tree(m, i, None);
                lemma_subset_drop(held_entries(m2), collected(d2), held_entries(m));
                if m2.old.len() + held(next) < m.old.len() + 1 {
                    lemma_remove_loop_keeps(m2, next, depth);
                }
            } else if i is Up && depth == 0 {
                lemma_take_drop(m);
                lemma_pop_enough(m.take_sto().0);
            } else {
                let m2 = if i is Component {
                    let (m1, w) = m.take_sto();
                    lemma_take_emit(m, Patch::<M, S>::RemoveComponent(w));
                    m1.emit(Patch::RemoveComponent(w))
                } else if uses_storage(i) {
                    lemma_take_drop(m);
                    m.take_sto().0
                } else {
                    m
                };
                lemma_pop_enough(m2);
                let (m3, next) = m2.pop_old();
                lemma_remove_loop_keeps(m3, next, crate::diff_model::next_depth(i, depth));
                assert(remove_sub_tree_loop(m, item, depth) == remove_sub_tree_loop(
                    m3,
                    next,
                    crate::diff_model::next_depth(i, depth),
                ));
            }
        },
    }
}

proof fn lemma_defer_remove_keeps<M, S>(
    m: DiffModel<M, S>,
    item: DomItem<M>,
    deferred: Option<(Seq<DomItem<M>>, Seq<S>)>,
)
    requires
        is_keyed(item),
        enough_storage(m, Some(item)),
        defs_balanced(m.old_def),
        collected_balanced(deferred),
    ensures
        ({
            let (r, d2, next) = defer_remove_sub_tree(m, item, deferred);
            &&& held_entries(r).add(collected(d2)).subset_of(held_entries(m).add(collected(deferred)))
            &&& defs_balanced(r.old_def)
            &&& enough_storage(r, next)
            &&& r.old_def.len() >= m.old_def.len()
            &&& collected_balanced(d2)
            &&& deferred is Some ==> d2 is Some
        }),
    decreases m.old.len() + 1, 0nat,
{
    broadcast use vstd::multiset::group_multiset_axioms;

    let key = key_of(item);
    let (m1, w) = m.take_sto();
    lemma_take_drop(m);
    if old_keys(m1.old_def).contains(key) {
        match deferred {
            Some(d) => {
                let (m2, first) = m1.pop_old();
                lemma_pop_enough(m1);
                lemma_defer_loop_keeps(m2, first, 0, seq![], seq![]);
                let (m3, di, ds, next) = defer_remove_loop(m2, first, 0, seq![], seq![]);
                assert(Seq::<S>::empty().to_multiset() =~= Multiset::<S>::empty()) by {
                    broadcast use vstd::seq_lib::group_to_multiset_ensures;
                }
                assert(storage_count(Seq::<DomItem<M>>::empty()) == 0);
                let y = (d.0.push(item) + di, d.1.push(w) + ds);
                vstd::seq_lib::lemma_multiset_commutative(d.1.push(w), ds);
                assert(d.1.push(w).to_multiset() =~= d.1.to_multiset().insert(w)) by {
                    broadcast use vstd::seq_lib::group_to_multiset_ensures;
                }
                lemma_storage_count_push(d.0, item);
                lemma_storage_count_concat(d.0.push(item), di);
                assert(held_entries(m3).add(collected(Some(y))) =~= held_entries(m3).add(
                    ds.to_multiset(),
                ).add(d.1.to_multiset()).insert(w));
                assert(held_entries(m2).add(Multiset::empty()) =~= held_entries(m1));
            },
            None => {
                let p = removal_patch::<M, S>(item, w);
                lemma_take_emit(m, p);
                lemma_remove_sub_tree_keeps(m1.emit(p));
                assert(held_entries(m).add(collected(deferred)) =~= held_entries(m));
                let (r, next) = remove_sub_tree(m1.emit(p));
                assert(held_entries(r).add(collected::<M, S>(None)) =~= held_entries(r));
            },
        }
    } else {
        let d1 = match deferred {
            Some(d) => Some((d.0.push(DomItem::Key(key)), d.1)),
            None => None,
        };
        if let Some(d) = deferred {
            lemma_storage_count_push(d.0, DomItem::<M>::Key(key));
        }
        let idx = m1.old_def.len() as int;
        let e0 = (key, seq![item], seq![w]);
        let m2 = DiffModel { old_def: m1.old_def.push(e0), ..m1 };
        lemma_set_aside_push(m1.old_def, e0);
        assert(seq![w] =~= Seq::<S>::empty().push(w));
        assert(seq![w].to_multiset() =~= Multiset::<S>::empty().insert(w)) by {
            broadcast use vstd::seq_lib::group_to_multiset_ensures;
            assert(Seq::<S>::empty().to_multiset() =~= Multiset::<S>::empty());
        }
        assert(held_entries(m2) =~= held_entries(m));
        assert(storage_count(seq![item]) == 1) by {
            assert(seq![item].drop_first() =~= Seq::<DomItem<M>>::empty());
            assert(storage_count(Seq::<DomItem<M>>::empty()) == 0);
            assert(seq![item][0] == item);
            assert(uses_storage(item));
        }
        assert(defs_balanced(m2.old_def)) by {
            assert forall|j: int| 0 <= j < m2.old_def.len() implies (#[trigger] m2.old_def[j]).2.len()
                == storage_count(m2.old_def[j].1) by {
                if j < idx {
                    assert(m2.old_def[j] == m1.old_def[j]);
                }
            }
        }
        let (m3, first) = m2.pop_old();
        lemma_pop_enough(m2);
        lemma_defer_loop_keeps(m3, first, 0, seq![], seq![]);
        let (m4, di, ds, next) = defer_remove_loop(m3, first, 0, seq![], seq![]);
        assert(Seq::<S>::empty().to_multiset() =~= Multiset::<S>::empty()) by {
            broadcast use vstd::seq_lib::group_to_multiset_ensures;
        }
        assert(storage_count(Seq::<DomItem<M>>::empty()) == 0);
        let e = m4.old_def[idx];
        let r = DiffModel { old_def: m4.old_def.update(idx, (e.0, e.1 + di, e.2 + ds)), ..m4 };
        assert(defer_remove_sub_tree(m, item, deferred) == (r, d1, next));
        lemma_set_aside_update(m4.old_def, idx, di, ds);
        assert(held_entries(r) =~= held_entries(m4).add(ds.to_multiset()));
        lemma_storage_count_concat(e.1, di);
        assert(defs_balanced(r.old_def)) by {
            assert forall|j: int| 0 <= j < r.old_def.len() implies (#[trigger] r.old_def[j]).2.len()
                == storage_count(r.old_def[j].1) by {
                if j != idx {
                    assert(r.old_def[j] == m4.old_def[j]);
                }
            }
        }
        assert(collected(d1) == collected(deferred));
    }
}

proof fn lemma_defer_loop_keeps<M, S>(
    m: DiffModel<M, S>,
    item: Option<DomItem<M>>,
    depth: nat,
    di: Seq<DomItem<M>>,
    ds: Seq<S>,
)
    requires
        enough_storage(m, item),
        defs_balanced(m.old_def),
        ds.len() == storage_count(di),
    ensures
        ({
            let (r, di2, ds2, next) = defer_remove_loop(m, item, depth, di, ds);
            &&& held_entries(r).add(ds2.to_multiset()).subset_of(held_entries(m).add(ds.to_multiset()))
            &&& defs_balanced(r.old_def)
            &&& enough_storage(r, next)
            &&& r.old_def.len() >= m.old_def.len()
            &&& ds2.len() == storage_count(di2)
        }),
    decreases m.old.len() + held(item), 1nat,
{
    broadcast use vstd::multiset::group_multiset_axioms;

    match item {
        None => {},
        Some(i) => {
            if is_keyed(i) {
                lemma_defer_remove_keeps(m, i, Some((di, ds)));
                let (m2, d2, next) = defer_remove_sub_tree(m, i, Some((di, ds)));
                let (di2, ds2) = d2->0;
                if m2.old.len() + held(next) < m.old.len() + 1 {
                    lemma_defer_loop_keeps(m2, next, depth, di2, ds2);
                }
            } else if i is Up && depth == 0 {
                lemma_take_drop(m);
                let (m2, w) = m.take_sto();
                lemma_pop_enough(m2);
                let (m3, next) = m2.pop_old();
                lemma_storage_count_push(di, i);
                assert(ds.push(w).to_multiset() =~= ds.to_multiset().insert(w)) by {
                    broadcast use vstd::seq_lib::group_to_multiset_ensures;
                }
                assert(held_entries(m3).add(ds.push(w).to_multiset()) =~= held_entries(m).add(
                    ds.to_multiset(),
                ));
            } else {
                lemma_storage_count_push(di, i);
                let (m2, ds2) = if uses_storage(i) {
                    lemma_take_drop(m);
                    let (a, w) = m.take_sto();
                    assert(ds.push(w).to_multiset() =~= ds.to_multiset().insert(w)) by {
                        broadcast use vstd::seq_lib::group_to_multiset_ensures;
                    }
                    assert(held_entries(a).add(ds.push(w).to_multiset()) =~= held_entries(m).add(
                        ds.to_multiset(),
                    ));
                    (a, ds.push(w))
                } else {
                    (m, ds)
                };
                lemma_pop_enough(m2);
                let (m3, next) = m2.pop_old();
                lemma_defer_loop_keeps(m3, next, crate::diff_model::next_depth(i, depth), di.push(i), ds2);
                assert(defer_remove_loop(m, item, depth, di, ds) == defer_remove_loop(
                    m3,
                    next,
                    crate::diff_model::next_depth(i, depth),
                    di.push(i),
                    ds2,
                ));
            }
        },
    }
}

/// Removing an item of the old dom.
proof fn lemma_remove_item_keeps<M, S>(m: DiffModel<M, S>, x: DomItem<M>)
    requires
        enough_storage(m, Some(x)),
        defs_balanced(m.old_def),
    ensures
        old_side_keeps(m, remove_item(m, x).0, remove_item(m, x).1),
{
    broadcast use vstd::multiset::group_multiset_axioms;

    if is_keyed(x) && m.defer {
        lemma_defer_remove_keeps(m, x, None);
        let (r, d2, next) = defer_remove_sub_tree(m, x, None);
        lemma_subset_drop(held_entries(r), collected(d2), held_entries(m));
    } else {
        match x {
            DomItem::Element { .. } | DomItem::Text(_) | DomItem::Component { .. } => {
                let (m1, w) = m.take_sto();
                let p = removal_patch::<M, S>(x, w);
                lemma_take_emit(m, p);
                lemma_remove_sub_tree_keeps(m1.emit(p));
            },
            DomItem::UnsafeInnerHtml(_) => {
                lemma_emit_none(m, Patch::<M, S>::UnsetInnerHtml);
                lemma_pop_enough(m.emit(Patch::UnsetInnerHtml));
            },
            DomItem::Event { trigger, .. } => {
                let (m1, w) = m.take_sto();
                let p = Patch::<M, S>::RemoveListener { trigger, take: w };
                lemma_take_emit(m, p);
                lemma_pop_enough(m1.emit(p));
            },
            DomItem::Attr { name, .. } => {
                lemma_emit_none(m, Patch::<M, S>::RemoveAttribute(name));
                lemma_pop_enough(m.emit(Patch::RemoveAttribute(name)));
            },
            DomItem::Up => {},
            DomItem::Key(_) => {
                lemma_pop_enough(m);
            },
        }
    }
}

// ---------------------------------------------------------------------------------------------
// The lock step walk.
// ---------------------------------------------------------------------------------------------

/// A matched pair of items whose old one hands its storage entry to a patch.
proof fn lemma_take_emit_advance<M, S>(m: DiffModel<M, S>, p: Patch<M, S>)
    requires
        m.sto.len() >= storage_count(m.old) + 1,
        patch_handle(p) == seq![m.take_sto().1],
    ensures
        held_entries(advance_model(m.take_sto().0.emit(p))) == held_entries(m),
        enough_storage(advance_model(m.take_sto().0.emit(p)), advance_old(m.take_sto().0.emit(p))),
{
    lemma_take_emit(m, p);
    lemma_pop_enough(m.take_sto().0.emit(p));
}

/// The state after taking the next item of both walks.
pub open spec fn advance_model<M, S>(m: DiffModel<M, S>) -> DiffModel<M, S> {
    crate::diff_model::advance(m).0
}

/// The old item in hand after taking the next item of both walks.
pub open spec fn advance_old<M, S>(m: DiffModel<M, S>) -> Option<DomItem<M>> {
    crate::diff_model::advance(m).1
}

/// A matched pair of items whose patches take no storage entry.
proof fn lemma_quiet_advance<M, S>(m: DiffModel<M, S>, r: DiffModel<M, S>)
    requires
        m.sto.len() >= storage_count(m.old),
        held_entries(r) == held_entries(m),
        r.sto == m.sto,
        r.old == m.old,
        r.old_def == m.old_def,
    ensures
        held_entries(advance_model(r)) == held_entries(m),
        enough_storage(advance_model(r), advance_old(r)),
{
    lemma_pop_enough(r);
}

#[verifier::spinoff_prover]
#[verifier::rlimit(40)]
proof fn lemma_compare_keeps<M: PartialEq, S>(m: DiffModel<M, S>, x: DomItem<M>, y: DomItem<M>)
    requires
        enough_storage(m, Some(x)),
        defs_balanced(m.old_def),
    ensures
        old_side_keeps(m, compare(m, x, y).0, compare(m, x, y).1),
{
    broadcast use vstd::multiset::group_multiset_axioms;

    let (m1, w) = m.take_sto();
    match match_of(x, y) {
        Match::KeyedElements => {
            lemma_take_emit_advance(m, Patch::<M, S>::MoveElement(w));
        },
        Match::Elements => {
            lemma_take_emit_advance(m, Patch::<M, S>::CopyElement(w));
        },
        Match::Texts => {
            let p = match (x, y) {
                (DomItem::Text(ot), DomItem::Text(nt)) => if ot@ == nt@ {
                    Patch::<M, S>::CopyText(w)
                } else {
                    Patch::ReplaceText { take: w, text: nt }
                },
                _ => Patch::CopyText(w),
            };
            lemma_take_emit_advance(m, p);
        },
        Match::InnerHtml => {
            let r = match (x, y) {
                (DomItem::UnsafeInnerHtml(oh), DomItem::UnsafeInnerHtml(nh)) => if oh@ != nh@ {
                    lemma_emit_none(m, Patch::<M, S>::SetInnerHtml(nh));
                    m.emit(Patch::SetInnerHtml(nh))
                } else {
                    m
                },
                _ => m,
            };
            lemma_quiet_advance(m, r);
        },
        Match::KeyedComponents | Match::Components => {
            let keyed = match_of(x, y) is KeyedComponents;
            let p = match (x, y) {
                (DomItem::Component { msg: om, .. }, DomItem::Component { msg: nm, .. }) => {
                    if om.eq_spec(&nm) {
                        if keyed {
                            Patch::<M, S>::MoveComponent(w)
                        } else {
                            Patch::CopyComponent(w)
                        }
                    } else if keyed {
                        Patch::MupdateComponent { take: w, msg: nm }
                    } else {
                        Patch::UpdateComponent { take: w, msg: nm }
                    }
                },
                _ => Patch::CopyComponent(w),
            };
            lemma_take_emit_advance(m, p);
        },
        Match::Attrs => {
            let r = match (x, y) {
                (DomItem::Attr { name: on, value: ov }, DomItem::Attr { name: nn, value: nv }) => {
                    if on@ != nn@ {
                        lemma_emit_none(m, Patch::<M, S>::RemoveAttribute(on));
                        lemma_emit_none(
                            m.emit(Patch::RemoveAttribute(on)),
                            Patch::<M, S>::SetAttribute { name: nn, value: nv },
                        );
                        m.emit(Patch::RemoveAttribute(on)).emit(
                            Patch::SetAttribute { name: nn, value: nv },
                        )
                    } else if ov@ != nv@ || crate::diff_model::is_special_attr(nn@) {
                        lemma_emit_none(m, Patch::<M, S>::SetAttribute { name: nn, value: nv });
                        m.emit(Patch::SetAttribute { name: nn, value: nv })
                    } else {
                        m
                    }
                },
                _ => m,
            };
            lemma_quiet_advance(m, r);
        },
        Match::Events => {
            let r = match (x, y) {
                (
                    DomItem::Event { trigger: ot, handler: oh },
                    DomItem::Event { trigger: nt, handler: nh },
                ) => {
                    if ot@ != nt@ || !crate::vdom::handler_eq(oh, nh) {
                        let a = Patch::<M, S>::RemoveListener { trigger: ot, take: w };
                        lemma_take_emit(m, a);
                        lemma_emit_none(m1.emit(a), Patch::<M, S>::AddListener { trigger: nt, handler: nh });
                        m1.emit(a).emit(Patch::AddListener { trigger: nt, handler: nh })
                    } else {
                        lemma_take_emit(m, Patch::<M, S>::CopyListener(w));
                        m1.emit(Patch::CopyListener(w))
                    }
                },
                _ => m1,
            };
            lemma_pop_enough(r);
        },
        Match::Ups => {
            lemma_take_drop(m);
            lemma_emit_none(m1, Patch::<M, S>::Up);
            lemma_pop_enough(m1.emit(Patch::Up));
        },
        Match::Differ => {
            lemma_remove_item_keeps(m, x);
            let (r1, on) = remove_item(m, x);
            lemma_add_item_none(r1, y);
        },
    }
}

proof fn lemma_step_keeps<M: PartialEq, S>(
    m: DiffModel<M, S>,
    o: Option<DomItem<M>>,
    n: Option<DomItem<M>>,
)
    requires
        enough_storage(m, o),
        defs_balanced(m.old_def),
    ensures
        old_side_keeps(m, walk_step(m, o, n).0, walk_step(m, o, n).1),
{
    match (o, n) {
        (None, Some(y)) => {
            lemma_add_item_none(m, y);
        },
        (Some(x), None) => {
            lemma_remove_item_keeps(m, x);
        },
        (Some(x), Some(y)) => {
            lemma_compare_keeps(m, x, y);
        },
        (None, None) => {
            assert(held_entries(m).subset_of(held_entries(m)));
        },
    }
}

proof fn lemma_walk_keeps<M: PartialEq, S>(
    m: DiffModel<M, S>,
    o: Option<DomItem<M>>,
    n: Option<DomItem<M>>,
)
    requires
        enough_storage(m, o),
        defs_balanced(m.old_def),
    ensures
        held_entries(walk(m, o, n)).subset_of(held_entries(m)),
        defs_balanced(walk(m, o, n).old_def),
    decreases walk_measure(m, o, n),
{
    lemma_step_keeps(m, o, n);
    let (m2, o2, n2) = walk_step(m, o, n);
    if walk_measure(m2, o2, n2) < walk_measure(m, o, n) {
        lemma_walk_keeps(m2, o2, n2);
    }
}

/// A diff handed at least the storage the old walk owns takes over, in its patches and in the
/// old sub trees it sets aside, no entry more often than the storage holds it; and each sub
/// tree it sets aside comes with exactly its storage.
proof fn lemma_run_keeps<M: PartialEq, S>(
    old: Seq<DomItem<M>>,
    new: Seq<DomItem<M>>,
    sto: Seq<S>,
    defer: bool,
)
    requires
        sto.len() >= storage_count(old),
    ensures
        patch_handles(run(old, new, sto, defer).patches).to_multiset().add(
            set_aside_entries(run(old, new, sto, defer).old_def),
        ).subset_of(sto.to_multiset()),
        defs_balanced(run(old, new, sto, defer).old_def),
{
    broadcast use vstd::multiset::group_multiset_axioms;

    let m0 = start(old, new, sto, defer);
    let (m1, o) = m0.pop_old();
    let (m2, n) = m1.pop_new();
    lemma_pop_enough(m0);
    assert(patch_handles(Seq::<Patch<M, S>>::empty()) =~= Seq::<S>::empty());
    assert(Seq::<S>::empty().to_multiset() =~= Multiset::<S>::empty()) by {
        broadcast use vstd::seq_lib::group_to_multiset_ensures;
    }
    assert(set_aside_entries(Seq::<(u64, Seq<DomItem<M>>, Seq<S>)>::empty()) == Multiset::<
        S,
    >::empty());
    assert(held_entries(m2) =~= sto.to_multiset());
    lemma_walk_keeps(m2, o, n);
    let r = run(old, new, sto, defer);
    assert forall|v: S|
        patch_handles(r.patches).to_multiset().add(set_aside_entries(r.old_def)).count(v)
            <= sto.to_multiset().count(v) by {
        assert(held_entries(r).count(v) <= held_entries(m2).count(v));
    }
}

// ---------------------------------------------------------------------------------------------
// Diffing the set aside sub trees, and the whole diff.
// ---------------------------------------------------------------------------------------------

/// The storage entries the patch list `ps` takes over.
pub open spec fn taken<M, S>(ps: Seq<Patch<M, S>>) -> Multiset<S> {
    patch_handles(ps).to_multiset()
}

/// The top level list `ps`, each keyed list of `keyed`, and what `rest` holds besides, take over
/// no entry more often than the storage `sto` holds it: the top level list with `rest`, the top
/// level list with any keyed list and `rest`, and any two keyed lists.
pub open spec fn lists_take_within<M, S>(
    ps: Seq<Patch<M, S>>,
    keyed: Map<u64, Seq<Patch<M, S>>>,
    rest: Multiset<S>,
    sto: Seq<S>,
) -> bool {
    &&& taken(ps).add(rest).subset_of(sto.to_multiset())
    &&& forall|k: u64| #[trigger]
        keyed.contains_key(k) ==> taken(ps).add(taken(keyed[k])).add(rest).subset_of(
            sto.to_multiset(),
        )
    &&& forall|k1: u64, k2: u64|
        #![trigger keyed.contains_key(k1), keyed.contains_key(k2)]
        keyed.contains_key(k1) && keyed.contains_key(k2) && k1 != k2 ==> taken(keyed[k1]).add(
            taken(keyed[k2]),
        ).subset_of(sto.to_multiset())
}

/// No storage entry is taken over twice, in one patch list or in two, and each one taken over
/// is an entry of the storage `sto`.
pub open spec fn takes_each_once<M, S>(
    ps: Seq<Patch<M, S>>,
    keyed: Map<u64, Seq<Patch<M, S>>>,
    sto: Seq<S>,
) -> bool {
    &&& patch_handles(ps).no_duplicates()
    &&& forall|h: S| #[trigger] patch_handles(ps).contains(h) ==> sto.contains(h)
    &&& forall|k: u64| #[trigger]
        keyed.contains_key(k) ==> patch_handles(keyed[k]).no_duplicates()
    &&& forall|k: u64, h: S|
        keyed.contains_key(k) && #[trigger] patch_handles(keyed[k]).contains(h) ==> sto.contains(h)
            && !patch_handles(ps).contains(h)
    &&& forall|k1: u64, k2: u64, h: S|
        keyed.contains_key(k1) && keyed.contains_key(k2) && k1 != k2 && #[trigger] patch_handles(
            keyed[k1],
        ).contains(h) ==> !#[trigger] patch_handles(keyed[k2]).contains(h)
}

proof fn lemma_handles_concat<M, S>(a: Seq<Patch<M, S>>, b: Seq<Patch<M, S>>)
    ensures
        patch_handles(a + b) == patch_handles(a) + patch_handles(b),
    decreases b.len(),
{
    if b.len() == 0 {
        assert(a + b =~= a);
        assert(patch_handles(a) + patch_handles(b) =~= patch_handles(a));
    } else {
        lemma_handles_concat(a, b.drop_last());
        assert((a + b).drop_last() =~= a + b.drop_last());
        assert((a + b).last() == b.last());
        assert(patch_handles(a + b) =~= patch_handles(a) + patch_handles(b));
    }
}

/// A diff of a set aside old sub tree takes over only entries of its own storage.
proof fn lemma_sub_run_within<M: PartialEq, S>(
    old: Seq<DomItem<M>>,
    new: Seq<DomItem<M>>,
    sto: Seq<S>,
)
    requires
        sto.len() >= storage_count(old),
    ensures
        taken(run(old, new, sto, false).patches).subset_of(sto.to_multiset()),
{
    broadcast use vstd::multiset::group_multiset_axioms;

    lemma_run_keeps(old, new, sto, false);
    let r = run(old, new, sto, false);
    assert forall|v: S| taken(r.patches).count(v) <= sto.to_multiset().count(v) by {
        assert(taken(r.patches).add(set_aside_entries(r.old_def)).count(v)
            <= sto.to_multiset().count(v));
    }
}

#[verifier::spinoff_prover]
#[verifier::rlimit(40)]
proof fn lemma_finish_old_within<M: PartialEq, S>(
    patches: Seq<Patch<M, S>>,
    keyed: Map<u64, Seq<Patch<M, S>>>,
    od: Seq<(u64, Seq<DomItem<M>>, Seq<S>)>,
    nd: Seq<(u64, Seq<DomItem<M>>)>,
    sto: Seq<S>,
)
    requires
        lists_take_within(patches, keyed, set_aside_entries(od), sto),
        defs_balanced(od),
    ensures
        ({
            let (p2, k2, nd2) = finish_old(patches, keyed, od, nd);
            lists_take_within(p2, k2, Multiset::empty(), sto)
        }),
    decreases od.len(),
{
    broadcast use vstd::multiset::group_multiset_axioms;

    if od.len() == 0 {
        assert(set_aside_entries(od) == Multiset::<S>::empty());
    } else {
        let e = od[0];
        let od1 = od.drop_first();
        lemma_set_aside_front(od);
        let rest = set_aside_entries(od);
        let rest1 = set_aside_entries(od1);
        assert(defs_balanced(od1)) by {
            assert forall|j: int| 0 <= j < od1.len() implies (#[trigger] od1[j]).2.len()
                == storage_count(od1[j].1) by {
                assert(od1[j] == od[j + 1]);
            }
        }
        assert(e.2.len() == storage_count(e.1));
        let top = taken(patches);
        let st = sto.to_multiset();
        match crate::diff_model::first_index(crate::diff_model::new_keys(nd), e.0) {
            Some(j) => {
                let sub = run(e.1, nd[j].1, e.2, false);
                lemma_sub_run_within(e.1, nd[j].1, e.2);
                let l = taken(sub.patches);
                let k1 = keyed.insert(e.0, sub.patches);
                assert(lists_take_within(patches, k1, rest1, sto)) by {
                    assert forall|v: S| top.add(rest1).count(v) <= st.count(v) by {
                        assert(top.add(rest).count(v) <= st.count(v));
                    }
                    assert forall|k: u64| #[trigger] k1.contains_key(k) implies top.add(
                        taken(k1[k]),
                    ).add(rest1).subset_of(st) by {
                        if k == e.0 {
                            assert forall|v: S| top.add(taken(k1[k])).add(rest1).count(v) <= st.count(
                                v,
                            ) by {
                                assert(l.count(v) <= e.2.to_multiset().count(v));
                                assert(top.add(rest).count(v) <= st.count(v));
                            }
                        } else {
                            assert(keyed.contains_key(k));
                            assert forall|v: S| top.add(taken(k1[k])).add(rest1).count(v) <= st.count(
                                v,
                            ) by {
                                assert(top.add(taken(keyed[k])).add(rest).count(v) <= st.count(v));
                            }
                        }
                    }
                    assert forall|ka: u64, kb: u64|
                        k1.contains_key(ka) && k1.contains_key(kb) && ka != kb implies taken(
                        k1[ka],
                    ).add(taken(k1[kb])).subset_of(st) by {
                        if ka == e.0 {
                            assert(keyed.contains_key(kb));
                            assert forall|v: S| taken(k1[ka]).add(taken(k1[kb])).count(v) <= st.count(
                                v,
                            ) by {
                                assert(l.count(v) <= e.2.to_multiset().count(v));
                                assert(top.add(taken(keyed[kb])).add(rest).count(v) <= st.count(v));
                            }
                        } else if kb == e.0 {
                            assert(keyed.contains_key(ka));
                            assert forall|v: S| taken(k1[ka]).add(taken(k1[kb])).count(v) <= st.count(
                                v,
                            ) by {
                                assert(l.count(v) <= e.2.to_multiset().count(v));
                                assert(top.add(taken(keyed[ka])).add(rest).count(v) <= st.count(v));
                            }
                        } else {
                            assert(keyed.contains_key(ka) && keyed.contains_key(kb));
                        }
                    }
                }
                lemma_finish_old_within(patches, k1, od1, nd.remove(j), sto);
            },
            None => {
                let sub = run(e.1, seq![], e.2, false);
                lemma_sub_run_within(e.1, seq![], e.2);
                let l = taken(sub.patches);
                let p1 = patches + sub.patches;
                lemma_handles_concat(patches, sub.patches);
                vstd::seq_lib::lemma_multiset_commutative(patch_handles(patches), patch_handles(sub.patches));
                assert(taken(p1) == top.add(l));
                assert(lists_take_within(p1, keyed, rest1, sto)) by {
                    assert forall|v: S| taken(p1).add(rest1).count(v) <= st.count(v) by {
                        assert(l.count(v) <= e.2.to_multiset().count(v));
                        assert(top.add(rest).count(v) <= st.count(v));
                    }
                    assert forall|k: u64| #[trigger] keyed.contains_key(k) implies taken(p1).add(
                        taken(keyed[k]),
                    ).add(rest1).subset_of(st) by {
                        assert forall|v: S| taken(p1).add(taken(keyed[k])).add(rest1).count(v)
                            <= st.count(v) by {
                            assert(l.count(v) <= e.2.to_multiset().count(v));
                            assert(top.add(taken(keyed[k])).add(rest).count(v) <= st.count(v));
                        }
                    }
                }
                lemma_finish_old_within(p1, keyed, od1, nd, sto);
            },
        }
    }
}

proof fn lemma_finish_new_within<M: PartialEq, S>(
    patches: Seq<Patch<M, S>>,
    keyed: Map<u64, Seq<Patch<M, S>>>,
    nd: Seq<(u64, Seq<DomItem<M>>)>,
    sto: Seq<S>,
)
    requires
        lists_take_within(patches, keyed, Multiset::empty(), sto),
    ensures
        lists_take_within(patches, finish_new(keyed, nd), Multiset::empty(), sto),
    decreases nd.len(),
{
    broadcast use vstd::multiset::group_multiset_axioms;

    if nd.len() > 0 {
        let e = nd[0];
        assert(storage_count(Seq::<DomItem<M>>::empty()) == 0);
        lemma_sub_run_within::<M, S>(seq![], e.1, seq![]);
        let sub = run(seq![], e.1, seq![], false);
        let l = taken(sub.patches);
        assert(Seq::<S>::empty().to_multiset() =~= Multiset::<S>::empty()) by {
            broadcast use vstd::seq_lib::group_to_multiset_ensures;
        }
        let k1 = keyed.insert(e.0, sub.patches);
        let top = taken(patches);
        let st = sto.to_multiset();
        let z = Multiset::<S>::empty();
        assert(lists_take_within(patches, k1, z, sto)) by {
            assert forall|k: u64| #[trigger] k1.contains_key(k) implies top.add(taken(k1[k])).add(
                z,
            ).subset_of(st) by {
                if k == e.0 {
                    assert forall|v: S| top.add(taken(k1[k])).add(z).count(v) <= st.count(v) by {
                        assert(l.count(v) <= 0);
                        assert(top.add(z).count(v) <= st.count(v));
                    }
                } else {
                    assert(keyed.contains_key(k));
                }
            }
            assert forall|ka: u64, kb: u64|
                k1.contains_key(ka) && k1.contains_key(kb) && ka != kb implies taken(k1[ka]).add(
                taken(k1[kb]),
            ).subset_of(st) by {
                if ka == e.0 {
                    assert(keyed.contains_key(kb));
                    assert forall|v: S| taken(k1[ka]).add(taken(k1[kb])).count(v) <= st.count(v) by {
                        assert(l.count(v) <= 0);
                        assert(top.add(taken(keyed[kb])).add(z).count(v) <= st.count(v));
                    }
                } else if kb == e.0 {
                    assert(keyed.contains_key(ka));
                    assert forall|v: S| taken(k1[ka]).add(taken(k1[kb])).count(v) <= st.count(v) by {
                        assert(l.count(v) <= 0);
                        assert(top.add(taken(keyed[ka])).add(z).count(v) <= st.count(v));
                    }
                } else {
                    assert(keyed.contains_key(ka) && keyed.contains_key(kb));
                }
            }
        }
        lemma_finish_new_within(patches, k1, nd.drop_first(), sto);
    }
}

/// A sequence whose entries the storage holds, with no entry twice in the storage, has no entry
/// twice.
proof fn lemma_within_no_duplicates<S>(s: Seq<S>, sto: Seq<S>)
    requires
        s.to_multiset().subset_of(sto.to_multiset()),
        sto.no_duplicates(),
    ensures
        s.no_duplicates(),
        forall|h: S| s.contains(h) ==> sto.contains(h),
{
    broadcast use vstd::multiset::group_multiset_axioms, vstd::seq_lib::group_to_multiset_ensures;

    sto.lemma_multiset_has_no_duplicates();
    assert forall|x: S| s.to_multiset().contains(x) implies s.to_multiset().count(x) == 1 by {
        assert(sto.to_multiset().count(x) >= 1);
    }
    s.lemma_multiset_has_no_duplicates_conv();
    assert forall|h: S| s.contains(h) implies sto.contains(h) by {
        assert(s.to_multiset().count(h) > 0);
    }
}

/// Two sequences whose entries the storage holds together, with no entry twice in the storage,
/// share no entry.
proof fn lemma_within_disjoint<S>(a: Seq<S>, b: Seq<S>, sto: Seq<S>, h: S)
    requires
        a.to_multiset().add(b.to_multiset()).subset_of(sto.to_multiset()),
        sto.no_duplicates(),
        a.contains(h),
    ensures
        !b.contains(h),
{
    broadcast use vstd::multiset::group_multiset_axioms, vstd::seq_lib::group_to_multiset_ensures;

    sto.lemma_multiset_has_no_duplicates();
    assert(a.to_multiset().count(h) > 0);
    assert(a.to_multiset().add(b.to_multiset()).count(h) <= sto.to_multiset().count(h));
}

/// Re-rendering with keys: over the top level patch list and all the keyed patch lists of a
/// diff handed (at least) the storage of the old walk, no entry of the storage is taken over
/// more often than the storage holds it, by one list or by two; so where the storage holds each
/// entry once, no entry is taken over twice, and each one taken over is an entry of the storage.
pub proof fn law_diff_takes_each_entry_at_most_once_with_keys<M: PartialEq, S>(
    old: Seq<DomItem<M>>,
    new: Seq<DomItem<M>>,
    sto: Seq<S>,
)
    requires
        sto.len() >= storage_count(old),
    ensures
        lists_take_within(
            diff_result(old, new, sto).0,
            diff_result(old, new, sto).1,
            Multiset::empty(),
            sto,
        ),
        sto.no_duplicates() ==> takes_each_once(
            diff_result(old, new, sto).0,
            diff_result(old, new, sto).1,
            sto,
        ),
{
    broadcast use vstd::multiset::group_multiset_axioms;

    lemma_run_keeps(old, new, sto, true);
    let m = run(old, new, sto, true);
    let e = Map::<u64, Seq<Patch<M, S>>>::empty();
    assert(lists_take_within(m.patches, e, set_aside_entries(m.old_def), sto));
    lemma_finish_old_within(m.patches, e, m.old_def, m.new_def, sto);
    let (p, k, nd1) = finish_old(m.patches, e, m.old_def, m.new_def);
    lemma_finish_new_within(p, k, nd1, sto);
    let keyed = finish_new(k, nd1);
    assert(diff_result(old, new, sto) == (p, keyed));
    let z = Multiset::<S>::empty();
    if sto.no_duplicates() {
        assert(taken(p).subset_of(sto.to_multiset())) by {
            assert forall|v: S| taken(p).count(v) <= sto.to_multiset().count(v) by {
                assert(taken(p).add(z).count(v) <= sto.to_multiset().count(v));
            }
        }
        lemma_within_no_duplicates(patch_handles(p), sto);
        assert forall|kk: u64| #[trigger] keyed.contains_key(kk) implies patch_handles(
            keyed[kk],
        ).no_duplicates() && taken(keyed[kk]).subset_of(sto.to_multiset()) && taken(p).add(
            taken(keyed[kk]),
        ).subset_of(sto.to_multiset()) by {
            assert forall|v: S| taken(keyed[kk]).count(v) <= sto.to_multiset().count(v)
                && taken(p).add(taken(keyed[kk])).count(v) <= sto.to_multiset().count(v) by {
                assert(taken(p).add(taken(keyed[kk])).add(z).count(v) <= sto.to_multiset().count(v));
            }
            lemma_within_no_duplicates(patch_handles(keyed[kk]), sto);
        }
        assert forall|kk: u64, h: S|
            keyed.contains_key(kk) && #[trigger] patch_handles(keyed[kk]).contains(h) implies sto.contains(
            h,
        ) && !patch_handles(p).contains(h) by {
            lemma_within_no_duplicates(patch_handles(keyed[kk]), sto);
            assert forall|v: S| taken(keyed[kk]).add(taken(p)).count(v) <= sto.to_multiset().count(
                v,
            ) by {
                assert(taken(p).add(taken(keyed[kk])).count(v) <= sto.to_multiset().count(v));
            }
            lemma_within_disjoint(patch_handles(keyed[kk]), patch_handles(p), sto, h);
        }
        assert forall|k1: u64, k2: u64, h: S|
            keyed.contains_key(k1) && keyed.contains_key(k2) && k1 != k2 && #[trigger] patch_handles(
                keyed[k1],
            ).contains(h) implies !#[trigger] patch_handles(keyed[k2]).contains(h) by {
            lemma_within_disjoint(patch_handles(keyed[k1]), patch_handles(keyed[k2]), sto, h);
        }
    }
}

} // verus!
