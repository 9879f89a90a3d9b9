//! What the diff promises of keyed sub trees: every keyed patch list a patch refers to is there,
//! and each is referred to at most once.
use vstd::prelude::*;
use vstd::multiset::Multiset;
use crate::vdom::{DomItem, is_keyed, no_key_refs, opens_node, uses_storage};
use crate::patch::{Patch, PatchSet, opens_before_use, patch_nesting, patch_opens, works_on_node};
use crate::apply::{
    PlanError, PlanState, Step, inserts_before, plan_from, plan_list, plan_on_node, plan_patch,
};
use crate::diff_model::{
    DiffModel, Match, add_item, add_sub_tree, add_sub_tree_loop, compare, create_patch,
    defer_add_loop, defer_add_sub_tree, defer_remove_loop, defer_remove_sub_tree, diff_result,
    finish_new, finish_old, first_index, held, key_of, match_of, new_keys, next_depth, old_keys,
    removal_patch, remove_item, remove_sub_tree, remove_sub_tree_loop, run, start, walk,
    walk_measure, walk_step,
};
use crate::diff_laws::{creations, lemma_add_sub_tree_loop_creates, rest_new};

verus! {

broadcast use vstd::multiset::group_multiset_axioms, vstd::seq_lib::group_to_multiset_ensures,
    vstd::seq_lib::lemma_multiset_commutative;

/// The key a patch refers to, if it refers to a keyed patch list.
pub open spec fn patch_key_ref<M, S>(p: Patch<M, S>) -> Seq<u64> {
    match p {
        Patch::ReferenceKey(k) => seq![k],
        _ => seq![],
    }
}

/// The keys a patch list refers to, in order.
pub open spec fn key_refs<M, S>(ps: Seq<Patch<M, S>>) -> Seq<u64>
    decreases ps.len(),
{
    if ps.len() == 0 {
        seq![]
    } else {
        key_refs(ps.drop_last()) + patch_key_ref(ps.last())
    }
}

/// The key a `Key` item stands for.
pub open spec fn item_key<M>(i: DomItem<M>) -> Seq<u64> {
    match i {
        DomItem::Key(k) => seq![k],
        _ => seq![],
    }
}

/// The keys of the `Key` items of a walk, in order.
pub open spec fn item_keys<M>(s: Seq<DomItem<M>>) -> Seq<u64>
    decreases s.len(),
{
    if s.len() == 0 {
        seq![]
    } else {
        item_keys(s.drop_last()) + item_key(s.last())
    }
}

/// The keys the `Key` items of the set aside new sub trees stand for.
pub open spec fn set_aside_refs<M>(nd: Seq<(u64, Seq<DomItem<M>>)>) -> Multiset<u64>
    decreases nd.len(),
{
    if nd.len() == 0 {
        Multiset::empty()
    } else {
        set_aside_refs(nd.drop_last()).add(item_keys(nd.last().1).to_multiset())
    }
}

/// Every key set aside on the new side is referred to exactly once, by a patch or by a `Key`
/// item of a set aside sub tree or of the lists in `x` being collected, and no key is set aside
/// twice.
pub open spec fn refs_balanced<M, S>(m: DiffModel<M, S>, x: Multiset<u64>) -> bool {
    &&& key_refs(m.patches).to_multiset().add(set_aside_refs(m.new_def)).add(x)
        == new_keys(m.new_def).to_multiset()
    &&& new_keys(m.new_def).no_duplicates()
}

/// The keys of the `Key` items of a list being collected, if any.
pub open spec fn collected_refs<M>(d: Option<Seq<DomItem<M>>>) -> Multiset<u64> {
    match d {
        Some(s) => item_keys(s).to_multiset(),
        None => Multiset::empty(),
    }
}

/// `b` starts with `a`.
pub open spec fn extends<T>(a: Seq<T>, b: Seq<T>) -> bool {
    a.len() <= b.len() && b.take(a.len() as int) == a
}

/// An item in hand that is not a `Key`.
pub open spec fn no_key_held<M>(i: Option<DomItem<M>>) -> bool {
    i matches Some(x) ==> !(x is Key)
}

pub(crate) proof fn lemma_key_refs_push<M, S>(ps: Seq<Patch<M, S>>, p: Patch<M, S>)
    ensures
        key_refs(ps.push(p)) == key_refs(ps) + patch_key_ref(p),
        !(p is ReferenceKey) ==> key_refs(ps.push(p)) == key_refs(ps),
        p matches Patch::ReferenceKey(k) ==> key_refs(ps.push(p)) == key_refs(ps).push(k),
{
    assert(ps.push(p).drop_last() =~= ps);
    assert(key_refs(ps) + Seq::<u64>::empty() =~= key_refs(ps));
    if let Patch::ReferenceKey(k) = p {
        assert(key_refs(ps) + seq![k] =~= key_refs(ps).push(k));
    }
}

pub(crate) proof fn lemma_key_refs_concat<M, S>(a: Seq<Patch<M, S>>, b: Seq<Patch<M, S>>)
    ensures
        key_refs(a + b) == key_refs(a) + key_refs(b),
    decreases b.len(),
{
    if b.len() == 0 {
        assert(a + b =~= a);
        assert(key_refs(a) + key_refs(b) =~= key_refs(a));
    } else {
        lemma_key_refs_concat(a, b.drop_last());
        assert((a + b).drop_last() =~= a + b.drop_last());
        assert((a + b).last() == b.last());
        assert(key_refs(a + b) =~= key_refs(a) + key_refs(b));
    }
}

pub(crate) proof fn lemma_item_keys_concat<M>(a: Seq<DomItem<M>>, b: Seq<DomItem<M>>)
    ensures
        item_keys(a + b) == item_keys(a) + item_keys(b),
    decreases b.len(),
{
    if b.len() == 0 {
        assert(a + b =~= a);
        assert(item_keys(a) + item_keys(b) =~= item_keys(a));
    } else {
        lemma_item_keys_concat(a, b.drop_last());
        assert((a + b).drop_last() =~= a + b.drop_last());
        assert((a + b).last() == b.last());
        assert(item_keys(a + b) =~= item_keys(a) + item_keys(b));
    }
}

pub(crate) proof fn lemma_item_keys_push<M>(s: Seq<DomItem<M>>, i: DomItem<M>)
    ensures
        item_keys(s.push(i)) == item_keys(s) + item_key(i),
        !(i is Key) ==> item_keys(s.push(i)) == item_keys(s),
        i matches DomItem::Key(k) ==> item_keys(s.push(i)) == item_keys(s).push(k),
{
    assert(s.push(i).drop_last() =~= s);
    assert(item_keys(s) + Seq::<u64>::empty() =~= item_keys(s));
    if let DomItem::Key(k) = i {
        assert(item_keys(s) + seq![k] =~= item_keys(s).push(k));
    }
}

/// The creation patches of a walk refer to the keys of its `Key` items, in order.
proof fn lemma_key_refs_creations<M, S>(c: Seq<DomItem<M>>)
    ensures
        key_refs(creations::<M, S>(c)) == item_keys(c),
    decreases c.len(),
{
    if c.len() > 0 {
        lemma_key_refs_creations::<M, S>(c.drop_last());
        assert(creations::<M, S>(c).drop_last() =~= creations::<M, S>(c.drop_last()));
        assert(creations::<M, S>(c).last() == create_patch::<M, S>(c.last()));
    } else {
        assert(creations::<M, S>(c) =~= Seq::<Patch<M, S>>::empty());
    }
}

// ---------------------------------------------------------------------------------------------
// The old side refers to no key and leaves the new side alone.
// ---------------------------------------------------------------------------------------------

/// `r` comes from `m` by work on the old side alone.
pub open spec fn old_side_only<M, S>(m: DiffModel<M, S>, r: DiffModel<M, S>) -> bool {
    &&& r.new == m.new
    &&& r.new_def == m.new_def
    &&& key_refs(r.patches) == key_refs(m.patches)
    &&& r.defer == m.defer
}

proof fn lemma_remove_sub_tree_old_side<M, S>(m: DiffModel<M, S>)
    ensures
        old_side_only(m, remove_sub_tree(m).0),
    decreases m.old.len(), 2nat,
{
    let (m1, i) = m.pop_old();
    lemma_remove_loop_old_side(m1, i, 0);
}

proof fn lemma_remove_loop_old_side<M, S>(m: DiffModel<M, S>, item: Option<DomItem<M>>, depth: nat)
    ensures
        old_side_only(m, remove_sub_tree_loop(m, item, depth).0),
    decreases m.old.len() + held(item), 1nat,
{
    match item {
        None => {},
        Some(i) => {
            if is_keyed(i) && m.defer {
                let (m2, _d, next) = defer_remove_sub_tree(m, i, None);
                lemma_defer_remove_old_side(m, i, None);
                if m2.old.len() + held(next) < m.old.len() + 1 {
                    lemma_remove_loop_old_side(m2, next, depth);
                }
            } else if i is Up && depth == 0 {
            } else {
                let m2 = if i is Component {
                    let (m1, w) = m.take_sto();
                    lemma_key_refs_push(m.patches, Patch::<M, S>::RemoveComponent(w));
                    m1.emit(Patch::RemoveComponent(w))
                } else if uses_storage(i) {
                    m.take_sto().0
                } else {
                    m
                };
                let (m3, next) = m2.pop_old();
                lemma_remove_loop_old_side(m3, next, next_depth(i, depth));
            }
        },
    }
}

proof fn lemma_defer_remove_old_side<M, S>(
    m: DiffModel<M, S>,
    item: DomItem<M>,
    deferred: Option<(Seq<DomItem<M>>, Seq<S>)>,
)
    ensures
        old_side_only(m, defer_remove_sub_tree(m, item, deferred).0),
    decreases m.old.len() + 1, 0nat,
{
    let key = key_of(item);
    let (m1, w) = m.take_sto();
    if old_keys(m1.old_def).contains(key) {
        match deferred {
            Some(d) => {
                let (m2, first) = m1.pop_old();
                lemma_defer_remove_loop_old_side(m2, first, 0, seq![], seq![]);
            },
            None => {
                let p = removal_patch::<M, S>(item, w);
                lemma_key_refs_push(m1.patches, p);
                lemma_remove_sub_tree_old_side(m1.emit(p));
            },
        }
    } else {
        let m2 = DiffModel { old_def: m1.old_def.push((key, seq![item], seq![w])), ..m1 };
        let (m3, first) = m2.pop_old();
        lemma_defer_remove_loop_old_side(m3, first, 0, seq![], seq![]);
    }
}

proof fn lemma_defer_remove_loop_old_side<M, S>(
    m: DiffModel<M, S>,
    item: Option<DomItem<M>>,
    depth: nat,
    di: Seq<DomItem<M>>,
    ds: Seq<S>,
)
    ensures
        old_side_only(m, defer_remove_loop(m, item, depth, di, ds).0),
    decreases m.old.len() + held(item), 1nat,
{
    match item {
        None => {},
        Some(i) => {
            if is_keyed(i) {
                let (m2, d2, next) = defer_remove_sub_tree(m, i, Some((di, ds)));
                lemma_defer_remove_old_side(m, i, Some((di, ds)));
                let (di2, ds2) = match d2 {
                    Some(d) => d,
                    None => (di, ds),
                };
                if m2.old.len() + held(next) < m.old.len() + 1 {
                    lemma_defer_remove_loop_old_side(m2, next, depth, di2, ds2);
                }
            } else if i is Up && depth == 0 {
            } else {
                let (m2, ds2) = if uses_storage(i) {
                    let (a, w) = m.take_sto();
                    (a, ds.push(w))
                } else {
                    (m, ds)
                };
                let (m3, next) = m2.pop_old();
                lemma_defer_remove_loop_old_side(m3, next, next_depth(i, depth), di.push(i), ds2);
            }
        },
    }
}

/// Removing an item of the old dom works on the old side alone.
pub(crate) proof fn lemma_remove_item_old_side<M, S>(m: DiffModel<M, S>, x: DomItem<M>)
    ensures
        old_side_only(m, remove_item(m, x).0),
{
    if is_keyed(x) && m.defer {
        lemma_defer_remove_old_side(m, x, None);
    } else {
        match x {
            DomItem::Element { .. } | DomItem::Text(_) | DomItem::Component { .. } => {
                let (m1, w) = m.take_sto();
                let p = removal_patch::<M, S>(x, w);
                lemma_key_refs_push(m1.patches, p);
                lemma_remove_sub_tree_old_side(m1.emit(p));
            },
            DomItem::UnsafeInnerHtml(_) => {
                lemma_key_refs_push(m.patches, Patch::<M, S>::UnsetInnerHtml);
            },
            DomItem::Event { trigger, .. } => {
                let (m1, w) = m.take_sto();
                lemma_key_refs_push(m1.patches, Patch::<M, S>::RemoveListener { trigger, take: w });
            },
            DomItem::Attr { name, .. } => {
                lemma_key_refs_push(m.patches, Patch::<M, S>::RemoveAttribute(name));
            },
            _ => {},
        }
    }
}

// ---------------------------------------------------------------------------------------------
// The new side: setting keyed sub trees aside keeps every set aside key referred to once.
// ---------------------------------------------------------------------------------------------

pub(crate) proof fn lemma_no_keys_empty()
    ensures
        Seq::<u64>::empty().to_multiset() == Multiset::<u64>::empty(),
{
    assert(Seq::<u64>::empty().to_multiset() =~= Multiset::<u64>::empty());
}

proof fn lemma_set_aside_push<M>(nd: Seq<(u64, Seq<DomItem<M>>)>, e: (u64, Seq<DomItem<M>>))
    ensures
        set_aside_refs(nd.push(e)) == set_aside_refs(nd).add(item_keys(e.1).to_multiset()),
        new_keys(nd.push(e)) == new_keys(nd).push(e.0),
{
    assert(nd.push(e).drop_last() =~= nd);
    assert(new_keys(nd.push(e)) =~= new_keys(nd).push(e.0));
}

/// Appending items to one set aside sub tree adds their keys.
proof fn lemma_set_aside_extend<M>(nd: Seq<(u64, Seq<DomItem<M>>)>, i: int, t: Seq<DomItem<M>>)
    requires
        0 <= i < nd.len(),
    ensures
        set_aside_refs(nd.update(i, (nd[i].0, nd[i].1 + t))) == set_aside_refs(nd).add(
            item_keys(t).to_multiset(),
        ),
        new_keys(nd.update(i, (nd[i].0, nd[i].1 + t))) == new_keys(nd),
    decreases nd.len(),
{
    let u = nd.update(i, (nd[i].0, nd[i].1 + t));
    assert(new_keys(u) =~= new_keys(nd));
    lemma_item_keys_concat(nd[i].1, t);
    if i == nd.len() - 1 {
        assert(u.drop_last() =~= nd.drop_last());
        assert(set_aside_refs(u) =~= set_aside_refs(nd).add(item_keys(t).to_multiset()));
    } else {
        lemma_set_aside_extend(nd.drop_last(), i, t);
        assert(u.drop_last() =~= nd.drop_last().update(i, (nd[i].0, nd[i].1 + t)));
        assert(set_aside_refs(u) =~= set_aside_refs(nd).add(item_keys(t).to_multiset()));
    }
}

pub(crate) proof fn lemma_pop_new_no_keys<M, S>(m: DiffModel<M, S>)
    requires
        no_key_refs(m.new),
    ensures
        no_key_refs(m.pop_new().0.new),
        no_key_held(m.pop_new().1),
{
    if m.new.len() > 0 {
        assert(!(m.new[0] is Key));
        let t = m.new.drop_first();
        assert forall|k: int| 0 <= k < t.len() implies !(#[trigger] t[k] is Key) by {
            assert(t[k] == m.new[k + 1]);
        }
    }
}

proof fn lemma_add_sub_tree_refs<M, S>(m: DiffModel<M, S>, x: Multiset<u64>)
    requires
        no_key_refs(m.new),
        refs_balanced(m, x),
    ensures
        ({
            let (r, next) = add_sub_tree(m);
            &&& no_key_refs(r.new)
            &&& no_key_held(next)
            &&& refs_balanced(r, x)
            &&& extends(m.new_def, r.new_def)
            &&& r.defer == m.defer
        }),
    decreases m.new.len(), 2nat,
{
    let (m1, i) = m.pop_new();
    lemma_pop_new_no_keys(m);
    lemma_add_loop_refs(m1, i, 0, x);
}

proof fn lemma_add_loop_refs<M, S>(
    m: DiffModel<M, S>,
    item: Option<DomItem<M>>,
    depth: nat,
    x: Multiset<u64>,
)
    requires
        no_key_refs(m.new),
        no_key_held(item),
        refs_balanced(m, x),
    ensures
        ({
            let (r, next) = add_sub_tree_loop(m, item, depth);
            &&& no_key_refs(r.new)
            &&& no_key_held(next)
            &&& refs_balanced(r, x)
            &&& extends(m.new_def, r.new_def)
            &&& r.defer == m.defer
        }),
    decreases m.new.len() + held(item), 1nat,
{
    assert(m.new_def.take(m.new_def.len() as int) =~= m.new_def);
    match item {
        None => {},
        Some(i) => {
            if is_keyed(i) && m.defer {
                assert(x.add(collected_refs::<M>(None)) =~= x);
                lemma_defer_add_refs(m, i, None, x);
                let (m2, _d, next) = defer_add_sub_tree(m, i, None);
                assert(x.add(collected_refs(_d)) =~= x);
                if m2.new.len() + held(next) < m.new.len() + 1 {
                    lemma_add_loop_refs(m2, next, depth, x);
                    let (r, nx) = add_sub_tree_loop(m2, next, depth);
                    assert(r.new_def.take(m.new_def.len() as int) =~= m.new_def);
                }
            } else if i is Up && depth == 0 {
                lemma_key_refs_push(m.patches, Patch::<M, S>::Up);
                lemma_pop_new_no_keys(m.emit(Patch::Up));
            } else {
                let p = create_patch::<M, S>(i);
                lemma_key_refs_push(m.patches, p);
                let (m2, next) = m.emit(p).pop_new();
                lemma_pop_new_no_keys(m.emit(p));
                lemma_add_loop_refs(m2, next, next_depth(i, depth), x);
            }
        },
    }
}

proof fn lemma_defer_add_refs<M, S>(
    m: DiffModel<M, S>,
    item: DomItem<M>,
    deferred: Option<Seq<DomItem<M>>>,
    x: Multiset<u64>,
)
    requires
        is_keyed(item),
        no_key_refs(m.new),
        refs_balanced(m, x.add(collected_refs(deferred))),
    ensures
        ({
            let (r, d2, next) = defer_add_sub_tree(m, item, deferred);
            &&& no_key_refs(r.new)
            &&& no_key_held(next)
            &&& refs_balanced(r, x.add(collected_refs(d2)))
            &&& extends(m.new_def, r.new_def)
            &&& deferred is Some <==> d2 is Some
            &&& r.defer == m.defer
        }),
    decreases m.new.len() + 1, 0nat,
{
    let key = key_of(item);
    lemma_item_keys_push(Seq::<DomItem<M>>::empty(), item);
    assert(Seq::<DomItem<M>>::empty().push(item) =~= seq![item]);
    assert(item_keys(Seq::<DomItem<M>>::empty()) =~= Seq::<u64>::empty());
    lemma_no_keys_empty();
    assert(m.new_def.take(m.new_def.len() as int) =~= m.new_def);
    assert(x.add(collected_refs::<M>(None)) =~= x);
    assert(!(create_patch::<M, S>(item) is ReferenceKey));
    if new_keys(m.new_def).contains(key) {
        match deferred {
            Some(d) => {
                let (m2, first) = m.pop_new();
                lemma_pop_new_no_keys(m);
                let x1 = x.add(item_keys(d).to_multiset());
                assert(x1.add(item_keys(Seq::<DomItem<M>>::empty()).to_multiset()) =~= x1);
                lemma_defer_add_loop_refs(m2, first, 0, seq![], x1);
                let (m3, dd, next) = defer_add_loop(m2, first, 0, seq![]);
                lemma_item_keys_push(d, item);
                lemma_item_keys_concat(d.push(item), dd);
                assert(x1.add(item_keys(dd).to_multiset()) =~= x.add(
                    item_keys(d.push(item) + dd).to_multiset(),
                ));
            },
            None => {
                let p = create_patch::<M, S>(item);
                lemma_key_refs_push(m.patches, p);
                lemma_add_sub_tree_refs(m.emit(p), x);
            },
        }
    } else {
        let (m1, d1) = match deferred {
            Some(d) => (m, Some(d.push(DomItem::Key(key)))),
            None => (m.emit(Patch::ReferenceKey(key)), None),
        };
        let x1 = x.add(collected_refs(d1));
        match deferred {
            Some(d) => {
                lemma_item_keys_push(d, DomItem::<M>::Key(key));
            },
            None => {
                lemma_key_refs_push(m.patches, Patch::<M, S>::ReferenceKey(key));
            },
        }
        let idx = m1.new_def.len() as int;
        let e0 = (key, seq![item]);
        let m2 = DiffModel { new_def: m1.new_def.push(e0), ..m1 };
        lemma_set_aside_push(m1.new_def, e0);
        assert(refs_balanced(m2, x1)) by {
            assert(key_refs(m2.patches).to_multiset().add(set_aside_refs(m2.new_def)).add(x1)
                =~= new_keys(m2.new_def).to_multiset());
        }
        let (m3, first) = m2.pop_new();
        lemma_pop_new_no_keys(m2);
        assert(x1.add(item_keys(Seq::<DomItem<M>>::empty()).to_multiset()) =~= x1);
        lemma_defer_add_loop_refs(m3, first, 0, seq![], x1);
        let (m4, dd, next) = defer_add_loop(m3, first, 0, seq![]);
        assert(m4.new_def[idx] == m4.new_def.take(m3.new_def.len() as int)[idx]);
        assert(m4.new_def[idx] == e0);
        lemma_set_aside_extend(m4.new_def, idx, dd);
        let r = DiffModel { new_def: m4.new_def.update(idx, (e0.0, e0.1 + dd)), ..m4 };
        assert(defer_add_sub_tree(m, item, deferred).0 == r);
        assert(refs_balanced(r, x1)) by {
            assert(key_refs(r.patches).to_multiset().add(set_aside_refs(r.new_def)).add(x1)
                =~= new_keys(r.new_def).to_multiset());
        }
        assert forall|j: int| 0 <= j < m.new_def.len() implies r.new_def[j] == m.new_def[j] by {
            assert(m4.new_def.take(m3.new_def.len() as int)[j] == m3.new_def[j]);
            assert(m3.new_def[j] == m.new_def[j]);
        }
        assert(r.new_def.take(m.new_def.len() as int) =~= m.new_def);
    }
}

proof fn lemma_defer_add_loop_refs<M, S>(
    m: DiffModel<M, S>,
    item: Option<DomItem<M>>,
    depth: nat,
    d: Seq<DomItem<M>>,
    x: Multiset<u64>,
)
    requires
        no_key_refs(m.new),
        no_key_held(item),
        refs_balanced(m, x.add(item_keys(d).to_multiset())),
    ensures
        ({
            let (r, dd, next) = defer_add_loop(m, item, depth, d);
            &&& no_key_refs(r.new)
            &&& no_key_held(next)
            &&& refs_balanced(r, x.add(item_keys(dd).to_multiset()))
            &&& extends(m.new_def, r.new_def)
            &&& r.defer == m.defer
        }),
    decreases m.new.len() + held(item), 1nat,
{
    assert(m.new_def.take(m.new_def.len() as int) =~= m.new_def);
    match item {
        None => {},
        Some(i) => {
            if is_keyed(i) {
                lemma_defer_add_refs(m, i, Some(d), x);
                let (m2, d2, next) = defer_add_sub_tree(m, i, Some(d));
                let dd = d2->0;
                if m2.new.len() + held(next) < m.new.len() + 1 {
                    lemma_defer_add_loop_refs(m2, next, depth, dd, x);
                    let (r, d3, nx) = defer_add_loop(m2, next, depth, dd);
                    assert(r.new_def.take(m.new_def.len() as int) =~= m.new_def);
                }
            } else if i is Up && depth == 0 {
                lemma_pop_new_no_keys(m);
                lemma_item_keys_push(d, i);
            } else {
                lemma_pop_new_no_keys(m);
                lemma_item_keys_push(d, i);
                let (m2, next) = m.pop_new();
                lemma_defer_add_loop_refs(m2, next, next_depth(i, depth), d.push(i), x);
            }
        },
    }
}

/// Adding an item of the new dom keeps every set aside key referred to once.
proof fn lemma_add_item_refs<M, S>(m: DiffModel<M, S>, y: DomItem<M>, x: Multiset<u64>)
    requires
        no_key_refs(m.new),
        !(y is Key),
        refs_balanced(m, x),
    ensures
        ({
            let (r, next) = add_item(m, y);
            &&& no_key_refs(r.new)
            &&& no_key_held(next)
            &&& refs_balanced(r, x)
            &&& extends(m.new_def, r.new_def)
            &&& r.defer == m.defer
        }),
{
    assert(m.new_def.take(m.new_def.len() as int) =~= m.new_def);
    if is_keyed(y) && m.defer {
        assert(x.add(collected_refs::<M>(None)) =~= x);
        lemma_defer_add_refs(m, y, None, x);
        let (r, d2, next) = defer_add_sub_tree(m, y, None);
        assert(x.add(collected_refs(d2)) =~= x);
    } else if y is Up {
    } else if opens_node(y) {
        let p = create_patch::<M, S>(y);
        lemma_key_refs_push(m.patches, p);
        lemma_add_sub_tree_refs(m.emit(p), x);
    } else {
        let p = create_patch::<M, S>(y);
        lemma_key_refs_push(m.patches, p);
        lemma_pop_new_no_keys(m.emit(p));
    }
}

/// Two items that match emit no reference to a key, and both walks move on by one item.
#[verifier::spinoff_prover]
#[verifier::rlimit(40)]
pub(crate) proof fn lemma_matched_quiet<M: PartialEq, S>(m: DiffModel<M, S>, x: DomItem<M>, y: DomItem<M>)
    requires
        !(match_of(x, y) is Differ),
    ensures
        ({
            let (r, o2, n2) = compare(m, x, y);
            &&& key_refs(r.patches) == key_refs(m.patches)
            &&& r.new_def == m.new_def
            &&& r.new == m.pop_new().0.new
            &&& n2 == m.pop_new().1
            &&& r.defer == m.defer
            &&& !(y is Key)
        }),
{
    let (r, o2, n2) = compare(m, x, y);
    let (m1, w) = m.take_sto();
    match match_of(x, y) {
        Match::Attrs => {
            match (x, y) {
                (DomItem::Attr { name: on, .. }, DomItem::Attr { name: nn, value: nv }) => {
                    lemma_key_refs_push(m.patches, Patch::<M, S>::RemoveAttribute(on));
                    lemma_key_refs_push(m.patches, Patch::<M, S>::SetAttribute { name: nn, value: nv });
                    lemma_key_refs_push(
                        m.patches.push(Patch::<M, S>::RemoveAttribute(on)),
                        Patch::<M, S>::SetAttribute { name: nn, value: nv },
                    );
                },
                _ => {},
            }
        },
        Match::InnerHtml => {
            match (x, y) {
                (DomItem::UnsafeInnerHtml(_), DomItem::UnsafeInnerHtml(nh)) => {
                    lemma_key_refs_push(m.patches, Patch::<M, S>::SetInnerHtml(nh));
                },
                _ => {},
            }
        },
        Match::Events => {
            match (x, y) {
                (DomItem::Event { trigger: ot, .. }, DomItem::Event { trigger: nt, handler: nh }) => {
                    let q = Patch::<M, S>::RemoveListener { trigger: ot, take: w };
                    lemma_key_refs_push(m.patches, q);
                    lemma_key_refs_push(
                        m.patches.push(q),
                        Patch::<M, S>::AddListener { trigger: nt, handler: nh },
                    );
                    lemma_key_refs_push(m.patches, Patch::<M, S>::CopyListener(w));
                },
                _ => {},
            }
        },
        _ => {
            lemma_key_refs_push(m.patches, r.patches.last());
            assert(r.patches == m.patches.push(r.patches.last()));
        },
    }
}

/// Comparing an item of the old dom with one of the new dom keeps every set aside key referred
/// to once.
proof fn lemma_compare_refs<M: PartialEq, S>(
    m: DiffModel<M, S>,
    x: DomItem<M>,
    y: DomItem<M>,
    z: Multiset<u64>,
)
    requires
        no_key_refs(m.new),
        !(y is Key),
        refs_balanced(m, z),
    ensures
        ({
            let (r, o2, n2) = compare(m, x, y);
            &&& no_key_refs(r.new)
            &&& no_key_held(n2)
            &&& refs_balanced(r, z)
        }),
{
    if match_of(x, y) is Differ {
        lemma_remove_item_old_side(m, x);
        let (m1, on) = remove_item(m, x);
        lemma_add_item_refs(m1, y, z);
    } else {
        lemma_matched_quiet(m, x, y);
        lemma_pop_new_no_keys(m);
    }
}

/// The lock step walk, setting keyed sub trees aside, keeps every set aside key referred to
/// once.
pub(crate) proof fn lemma_walk_refs<M: PartialEq, S>(
    m: DiffModel<M, S>,
    o: Option<DomItem<M>>,
    n: Option<DomItem<M>>,
)
    requires
        no_key_refs(m.new),
        no_key_held(n),
        refs_balanced(m, Multiset::empty()),
    ensures
        refs_balanced(walk(m, o, n), Multiset::empty()),
    decreases walk_measure(m, o, n),
{
    let (m2, o2, n2) = walk_step(m, o, n);
    match (o, n) {
        (None, Some(y)) => {
            lemma_add_item_refs(m, y, Multiset::empty());
        },
        (Some(x), None) => {
            lemma_remove_item_old_side(m, x);
        },
        (Some(x), Some(y)) => {
            lemma_compare_refs(m, x, y, Multiset::empty());
        },
        (None, None) => {},
    }
    if walk_measure(m2, o2, n2) < walk_measure(m, o, n) {
        lemma_walk_refs(m2, o2, n2);
    }
}

// ---------------------------------------------------------------------------------------------
// A diff that sets nothing aside refers to the keys of the `Key` items of its new walk.
// ---------------------------------------------------------------------------------------------

/// The keys referred to so far, and by the `Key` items left of the new walk.
pub open spec fn plain_refs<M, S>(m: DiffModel<M, S>, n: Option<DomItem<M>>) -> Multiset<u64> {
    key_refs(m.patches).to_multiset().add(item_keys(rest_new(m, n)).to_multiset())
}

pub(crate) proof fn lemma_item_keys_front<M>(y: DomItem<M>, s: Seq<DomItem<M>>)
    ensures
        item_keys(seq![y] + s).to_multiset() == item_keys(s).to_multiset().add(
            item_key(y).to_multiset(),
        ),
{
    lemma_item_keys_concat(seq![y], s);
    lemma_item_keys_push(Seq::<DomItem<M>>::empty(), y);
    assert(Seq::<DomItem<M>>::empty().push(y) =~= seq![y]);
    assert(item_keys(Seq::<DomItem<M>>::empty()) =~= Seq::<u64>::empty());
    assert(Seq::<u64>::empty() + item_key(y) =~= item_key(y));
    assert(item_keys(seq![y] + s).to_multiset() =~= item_keys(s).to_multiset().add(
        item_key(y).to_multiset(),
    ));
}

/// Without setting keyed sub trees aside, adding an item of the new dom refers to the keys of
/// the `Key` items it consumes.
pub(crate) proof fn lemma_add_item_plain<M, S>(m: DiffModel<M, S>, y: DomItem<M>)
    requires
        !m.defer,
    ensures
        ({
            let (r, next) = add_item(m, y);
            &&& plain_refs(r, next) == plain_refs(m, Some(y))
            &&& next is None ==> r.new.len() == 0
            &&& !r.defer
        }),
{
    let (r, next) = add_item(m, y);
    let p = create_patch::<M, S>(y);
    assert(patch_key_ref(p) == item_key(y));
    lemma_item_keys_front(y, m.new);
    if y is Up {
    } else if opens_node(y) {
        let m1 = m.emit(p);
        let (m2, first) = m1.pop_new();
        assert(rest_new(m2, first) =~= m.new);
        let c = lemma_add_sub_tree_loop_creates(m2, first, 0);
        lemma_key_refs_push(m.patches, p);
        lemma_key_refs_concat(m1.patches, creations::<M, S>(c));
        lemma_key_refs_creations::<M, S>(c);
        lemma_item_keys_concat(c, rest_new(r, next));
        assert(plain_refs(r, next) =~= plain_refs(m, Some(y)));
    } else {
        lemma_key_refs_push(m.patches, p);
        assert(rest_new(r, next) =~= m.new);
        assert(plain_refs(r, next) =~= plain_refs(m, Some(y)));
    }
}

/// Without setting keyed sub trees aside, the lock step walk refers to keys of the `Key` items
/// of the new walk only, each as often as it occurs there.
proof fn lemma_walk_plain_refs<M: PartialEq, S>(
    m: DiffModel<M, S>,
    o: Option<DomItem<M>>,
    n: Option<DomItem<M>>,
)
    requires
        !m.defer,
        n is None ==> m.new.len() == 0,
    ensures
        key_refs(walk(m, o, n).patches).to_multiset().subset_of(plain_refs(m, n)),
    decreases walk_measure(m, o, n),
{
    let (m2, o2, n2) = walk_step(m, o, n);
    match (o, n) {
        (None, Some(y)) => {
            lemma_add_item_plain(m, y);
        },
        (Some(x), None) => {
            lemma_remove_item_old_side(m, x);
        },
        (Some(x), Some(y)) => {
            if match_of(x, y) is Differ {
                lemma_remove_item_old_side(m, x);
                let (m1, on) = remove_item(m, x);
                lemma_add_item_plain(m1, y);
                assert(plain_refs(m1, n) == plain_refs(m, n));
            } else {
                lemma_matched_quiet(m, x, y);
                lemma_item_keys_front(y, m.new);
                assert(item_key(y) =~= Seq::<u64>::empty());
                assert(rest_new(m2, n2) =~= m.new);
                assert(plain_refs(m2, n2) =~= plain_refs(m, n));
            }
        },
        (None, None) => {},
    }
    if walk_measure(m2, o2, n2) < walk_measure(m, o, n) {
        lemma_walk_plain_refs(m2, o2, n2);
    }
}

/// A diff that sets nothing aside refers to keys of the `Key` items of its new walk only, each
/// as often as it occurs there.
pub(crate) proof fn lemma_run_plain_refs<M: PartialEq, S>(
    old: Seq<DomItem<M>>,
    new: Seq<DomItem<M>>,
    sto: Seq<S>,
)
    ensures
        key_refs(run(old, new, sto, false).patches).to_multiset().subset_of(
            item_keys(new).to_multiset(),
        ),
{
    let (m1, o) = start(old, new, sto, false).pop_old();
    let (m2, n) = m1.pop_new();
    assert(rest_new(m2, n) =~= new);
    assert(key_refs(Seq::<Patch<M, S>>::empty()) =~= Seq::<u64>::empty());
    lemma_no_keys_empty();
    assert(plain_refs(m2, n) =~= item_keys(new).to_multiset());
    lemma_walk_plain_refs(m2, o, n);
}

// ---------------------------------------------------------------------------------------------
// Diffing the set aside sub trees.
// ---------------------------------------------------------------------------------------------

pub(crate) proof fn lemma_first_index(keys: Seq<u64>, k: u64)
    requires
        keys.no_duplicates(),
    ensures
        match first_index(keys, k) {
            Some(j) => 0 <= j < keys.len() && keys[j] == k,
            None => !keys.contains(k),
        },
{
    if exists|i: int| 0 <= i < keys.len() && keys[i] == k {
        let i = choose|i: int| 0 <= i < keys.len() && keys[i] == k;
        assert(forall|j: int| 0 <= j < i ==> keys[j] != k);
    }
}

/// A patch list that refers to no key.
pub(crate) proof fn lemma_no_refs<M, S>(ps: Seq<Patch<M, S>>)
    requires
        key_refs(ps).to_multiset().subset_of(Multiset::empty()),
    ensures
        key_refs(ps) == Seq::<u64>::empty(),
{
    assert(key_refs(ps).to_multiset() =~= Multiset::empty());
    assert(key_refs(ps).to_multiset().len() == 0);
}

/// Each keyed patch list of `keyed` belongs to a set aside new sub tree of `nd0`, and refers
/// only to keys of its `Key` items, each at most as often as it occurs there.
pub open spec fn lists_from<M, S>(
    keyed: Map<u64, Seq<Patch<M, S>>>,
    nd0: Seq<(u64, Seq<DomItem<M>>)>,
) -> bool {
    forall|k: u64|
        #[trigger] keyed.contains_key(k) ==> exists|j: int|
            0 <= j < nd0.len() && nd0[j].0 == k && key_refs(keyed[k]).to_multiset().subset_of(
                item_keys(nd0[j].1).to_multiset(),
            )
}

/// While the set aside sub trees are diffed: `nd` holds the new ones of `nd0` that have no list
/// yet, and every other one has its list in `keyed`.
pub open spec fn finishing<M, S>(
    keyed: Map<u64, Seq<Patch<M, S>>>,
    nd: Seq<(u64, Seq<DomItem<M>>)>,
    nd0: Seq<(u64, Seq<DomItem<M>>)>,
) -> bool {
    &&& lists_from(keyed, nd0)
    &&& forall|j: int| 0 <= j < nd.len() ==> nd0.contains(#[trigger] nd[j])
    &&& forall|j: int|
        0 <= j < nd0.len() ==> keyed.contains_key(#[trigger] nd0[j].0) || nd.contains(nd0[j])
    &&& forall|k: u64| #[trigger] keyed.contains_key(k) ==> !new_keys(nd).contains(k)
    &&& new_keys(nd).no_duplicates()
}

proof fn lemma_finish_old<M: PartialEq, S>(
    patches: Seq<Patch<M, S>>,
    keyed: Map<u64, Seq<Patch<M, S>>>,
    od: Seq<(u64, Seq<DomItem<M>>, Seq<S>)>,
    nd: Seq<(u64, Seq<DomItem<M>>)>,
    nd0: Seq<(u64, Seq<DomItem<M>>)>,
)
    requires
        finishing(keyed, nd, nd0),
    ensures
        ({
            let (p2, k2, nd2) = finish_old(patches, keyed, od, nd);
            &&& finishing(k2, nd2, nd0)
            &&& key_refs(p2) == key_refs(patches)
        }),
    decreases od.len(),
{
    if od.len() > 0 {
        let e = od[0];
        lemma_first_index(new_keys(nd), e.0);
        match first_index(new_keys(nd), e.0) {
            Some(j) => {
                let sub = run(e.1, nd[j].1, e.2, false);
                lemma_run_plain_refs(e.1, nd[j].1, e.2);
                let k1 = keyed.insert(e.0, sub.patches);
                let n1 = nd.remove(j);
                assert(new_keys(n1) =~= new_keys(nd).remove(j));
                assert(nd0.contains(nd[j]));
                assert(finishing(k1, n1, nd0)) by {
                    assert forall|k: u64| #[trigger] k1.contains_key(k) implies exists|i: int|
                        0 <= i < nd0.len() && nd0[i].0 == k && key_refs(k1[k]).to_multiset().subset_of(
                            item_keys(nd0[i].1).to_multiset(),
                        ) by {
                        if k == e.0 {
                            let i = choose|i: int| 0 <= i < nd0.len() && nd0[i] == nd[j];
                            assert(nd0[i].0 == k);
                        } else {
                            assert(keyed.contains_key(k));
                        }
                    }
                    assert forall|i: int| 0 <= i < n1.len() implies nd0.contains(#[trigger] n1[i]) by {
                        if i < j {
                            assert(n1[i] == nd[i]);
                        } else {
                            assert(n1[i] == nd[i + 1]);
                        }
                    }
                    assert forall|i: int| 0 <= i < nd0.len() implies k1.contains_key(
                        #[trigger] nd0[i].0,
                    ) || n1.contains(nd0[i]) by {
                        if !keyed.contains_key(nd0[i].0) {
                            assert(nd.contains(nd0[i]));
                            let a = choose|a: int| 0 <= a < nd.len() && nd[a] == nd0[i];
                            if a < j {
                                assert(n1[a] == nd0[i]);
                            } else if a > j {
                                assert(n1[a - 1] == nd0[i]);
                            } else {
                                assert(nd0[i].0 == e.0);
                            }
                        }
                    }
                    assert forall|k: u64| #[trigger] k1.contains_key(k) implies !new_keys(n1).contains(
                        k,
                    ) by {
                        if new_keys(n1).contains(k) {
                            let a = choose|a: int| 0 <= a < new_keys(n1).len() && new_keys(n1)[a] == k;
                            if k == e.0 {
                                if a < j {
                                    assert(new_keys(nd)[a] == k);
                                } else {
                                    assert(new_keys(nd)[a + 1] == k);
                                }
                            } else {
                                assert(keyed.contains_key(k));
                                if a < j {
                                    assert(new_keys(nd)[a] == k);
                                } else {
                                    assert(new_keys(nd)[a + 1] == k);
                                }
                            }
                        }
                    }
                    assert forall|a: int, b: int|
                        0 <= a < new_keys(n1).len() && 0 <= b < new_keys(n1).len() && a != b
                        implies new_keys(n1)[a] != new_keys(n1)[b] by {
                        let a1 = if a < j { a } else { a + 1 };
                        let b1 = if b < j { b } else { b + 1 };
                        assert(new_keys(n1)[a] == new_keys(nd)[a1]);
                        assert(new_keys(n1)[b] == new_keys(nd)[b1]);
                    }
                }
                lemma_finish_old(patches, k1, od.drop_first(), n1, nd0);
            },
            None => {
                let sub = run(e.1, seq![], e.2, false);
                lemma_run_plain_refs(e.1, seq![], e.2);
                assert(item_keys(Seq::<DomItem<M>>::empty()) =~= Seq::<u64>::empty());
                lemma_no_keys_empty();
                lemma_no_refs(sub.patches);
                lemma_key_refs_concat(patches, sub.patches);
                assert(key_refs(patches) + Seq::<u64>::empty() =~= key_refs(patches));
                lemma_finish_old(patches + sub.patches, keyed, od.drop_first(), nd, nd0);
            },
        }
    }
}

proof fn lemma_finish_new<M: PartialEq, S>(
    keyed: Map<u64, Seq<Patch<M, S>>>,
    nd: Seq<(u64, Seq<DomItem<M>>)>,
    nd0: Seq<(u64, Seq<DomItem<M>>)>,
)
    requires
        finishing(keyed, nd, nd0),
    ensures
        lists_from(finish_new(keyed, nd), nd0),
        forall|j: int| 0 <= j < nd0.len() ==> finish_new(keyed, nd).contains_key(#[trigger] nd0[j].0),
    decreases nd.len(),
{
    if nd.len() == 0 {
        assert forall|j: int| 0 <= j < nd0.len() implies keyed.contains_key(#[trigger] nd0[j].0) by {
            if !keyed.contains_key(nd0[j].0) {
                assert(nd.contains(nd0[j]));
            }
        }
    } else {
        let e = nd[0];
        let sub = run(seq![], e.1, seq![], false);
        lemma_run_plain_refs(Seq::<DomItem<M>>::empty(), e.1, Seq::<S>::empty());
        let k1 = keyed.insert(e.0, sub.patches);
        let n1 = nd.drop_first();
        assert(new_keys(n1) =~= new_keys(nd).drop_first());
        assert(new_keys(nd)[0] == e.0);
        assert(finishing(k1, n1, nd0)) by {
            assert(nd0.contains(nd[0]));
            assert forall|k: u64| #[trigger] k1.contains_key(k) implies exists|i: int|
                0 <= i < nd0.len() && nd0[i].0 == k && key_refs(k1[k]).to_multiset().subset_of(
                    item_keys(nd0[i].1).to_multiset(),
                ) by {
                if k == e.0 {
                    let i = choose|i: int| 0 <= i < nd0.len() && nd0[i] == nd[0];
                    assert(nd0[i].0 == k);
                } else {
                    assert(keyed.contains_key(k));
                }
            }
            assert forall|i: int| 0 <= i < n1.len() implies nd0.contains(#[trigger] n1[i]) by {
                assert(n1[i] == nd[i + 1]);
            }
            assert forall|i: int| 0 <= i < nd0.len() implies k1.contains_key(#[trigger] nd0[i].0)
                || n1.contains(nd0[i]) by {
                if !keyed.contains_key(nd0[i].0) {
                    assert(nd.contains(nd0[i]));
                    let a = choose|a: int| 0 <= a < nd.len() && nd[a] == nd0[i];
                    if a > 0 {
                        assert(n1[a - 1] == nd0[i]);
                    }
                }
            }
            assert forall|k: u64| #[trigger] k1.contains_key(k) implies !new_keys(n1).contains(k) by {
                if new_keys(n1).contains(k) {
                    let a = choose|a: int| 0 <= a < new_keys(n1).len() && new_keys(n1)[a] == k;
                    assert(new_keys(nd)[a + 1] == k);
                    if k == e.0 {
                        assert(new_keys(nd)[0] == k);
                    } else {
                        assert(keyed.contains_key(k));
                    }
                }
            }
            assert forall|a: int, b: int|
                0 <= a < new_keys(n1).len() && 0 <= b < new_keys(n1).len() && a != b implies new_keys(
                n1,
            )[a] != new_keys(n1)[b] by {
                assert(new_keys(n1)[a] == new_keys(nd)[a + 1]);
                assert(new_keys(n1)[b] == new_keys(nd)[b + 1]);
            }
        }
        lemma_finish_new(k1, n1, nd0);
    }
}

/// The `Key` items of one set aside sub tree, or of two different ones, are among those of all.
pub(crate) proof fn lemma_set_aside_parts<M>(nd: Seq<(u64, Seq<DomItem<M>>)>, j1: int, j2: int, k: u64)
    requires
        0 <= j1 < nd.len(),
        0 <= j2 < nd.len(),
    ensures
        item_keys(nd[j1].1).to_multiset().count(k) <= set_aside_refs(nd).count(k),
        j1 != j2 ==> item_keys(nd[j1].1).to_multiset().count(k) + item_keys(
            nd[j2].1,
        ).to_multiset().count(k) <= set_aside_refs(nd).count(k),
    decreases nd.len(),
{
    let t = nd.drop_last();
    let l = nd.len() - 1;
    if j1 < l {
        assert(nd[j1] == t[j1]);
        if j2 < l {
            assert(nd[j2] == t[j2]);
            lemma_set_aside_parts(t, j1, j2, k);
        } else {
            lemma_set_aside_parts(t, j1, j1, k);
        }
    } else if j2 < l {
        assert(nd[j2] == t[j2]);
        lemma_set_aside_parts(t, j2, j2, k);
    }
}

/// Every key a patch list of `(ps, keyed)` refers to has its keyed patch list.
pub open spec fn refs_resolve<M, S>(ps: Seq<Patch<M, S>>, keyed: Map<u64, Seq<Patch<M, S>>>) -> bool {
    &&& forall|k: u64| #[trigger] key_refs(ps).contains(k) ==> keyed.contains_key(k)
    &&& forall|k1: u64, k: u64|
        keyed.contains_key(k1) && #[trigger] key_refs(keyed[k1]).contains(k) ==> keyed.contains_key(k)
}

/// No key is referred to twice in the patch lists of `(ps, keyed)`, in one list or in two.
pub open spec fn refs_once<M, S>(ps: Seq<Patch<M, S>>, keyed: Map<u64, Seq<Patch<M, S>>>) -> bool {
    &&& key_refs(ps).no_duplicates()
    &&& forall|k1: u64| #[trigger] keyed.contains_key(k1) ==> key_refs(keyed[k1]).no_duplicates()
    &&& forall|k1: u64, k: u64|
        keyed.contains_key(k1) && #[trigger] key_refs(keyed[k1]).contains(k) ==> !key_refs(
            ps,
        ).contains(k)
    &&& forall|k1: u64, k2: u64, k: u64|
        keyed.contains_key(k1) && keyed.contains_key(k2) && k1 != k2 && #[trigger] key_refs(
            keyed[k1],
        ).contains(k) ==> !#[trigger] key_refs(keyed[k2]).contains(k)
}

/// After the lock step walk of a diff, every key set aside on the new side is referred to
/// exactly once, and none twice.
pub(crate) proof fn lemma_run_keys_unique<M: PartialEq, S>(
    old: Seq<DomItem<M>>,
    new: Seq<DomItem<M>>,
    sto: Seq<S>,
)
    requires
        no_key_refs(new),
    ensures
        refs_balanced(run(old, new, sto, true), Multiset::empty()),
        new_keys(run(old, new, sto, true).new_def).no_duplicates(),
{
    let (m1, o) = start(old, new, sto, true).pop_old();
    let (m2, n) = m1.pop_new();
    lemma_pop_new_no_keys(m1);
    assert(key_refs(Seq::<Patch<M, S>>::empty()) =~= Seq::<u64>::empty());
    lemma_no_keys_empty();
    assert(new_keys(Seq::<(u64, Seq<DomItem<M>>)>::empty()) =~= Seq::<u64>::empty());
    assert(refs_balanced(m2, Multiset::empty())) by {
        assert(key_refs(m2.patches).to_multiset().add(set_aside_refs(m2.new_def)).add(
            Multiset::empty(),
        ) =~= new_keys(m2.new_def).to_multiset());
    }
    lemma_walk_refs(m2, o, n);
}

/// A sequence in which nothing occurs twice, seen through its multiset.
pub(crate) proof fn lemma_once_no_duplicates(s: Seq<u64>, bound: Multiset<u64>)
    requires
        s.to_multiset().subset_of(bound),
        forall|k: u64| #[trigger] bound.count(k) <= 1,
    ensures
        s.no_duplicates(),
{
    assert forall|k: u64| s.to_multiset().contains(k) implies s.to_multiset().count(k) == 1 by {
        assert(bound.count(k) <= 1);
    }
    s.lemma_multiset_has_no_duplicates_conv();
}

/// Keyed patch lists: every keyed patch list the diff refers to, from its top level list or from
/// a keyed list, is in the patch set, and no keyed list is referred to twice. (The new walk is
/// one a `Dom` renders, which holds no `Key` item.)
pub proof fn law_diff_keyed_refs_resolve_once<M: PartialEq, S>(
    old: Seq<DomItem<M>>,
    new: Seq<DomItem<M>>,
    sto: Seq<S>,
)
    requires
        no_key_refs(new),
    ensures
        refs_resolve(diff_result(old, new, sto).0, diff_result(old, new, sto).1),
        refs_once(diff_result(old, new, sto).0, diff_result(old, new, sto).1),
{
    let (m1, o) = start(old, new, sto, true).pop_old();
    let (m2, n) = m1.pop_new();
    lemma_pop_new_no_keys(m1);
    assert(key_refs(Seq::<Patch<M, S>>::empty()) =~= Seq::<u64>::empty());
    lemma_no_keys_empty();
    assert(new_keys(Seq::<(u64, Seq<DomItem<M>>)>::empty()) =~= Seq::<u64>::empty());
    assert(refs_balanced(m2, Multiset::empty())) by {
        assert(key_refs(m2.patches).to_multiset().add(set_aside_refs(m2.new_def)).add(
            Multiset::empty(),
        ) =~= new_keys(m2.new_def).to_multiset());
    }
    lemma_walk_refs(m2, o, n);
    let m = run(old, new, sto, true);
    let nd0 = m.new_def;
    let e = Map::<u64, Seq<Patch<M, S>>>::empty();
    assert(finishing(e, nd0, nd0)) by {
        assert forall|j: int| 0 <= j < nd0.len() implies nd0.contains(#[trigger] nd0[j]) by {}
    }
    lemma_finish_old(m.patches, e, m.old_def, nd0, nd0);
    let (p, k, nd1) = finish_old(m.patches, e, m.old_def, nd0);
    lemma_finish_new(k, nd1, nd0);
    let keyed = finish_new(k, nd1);
    assert(diff_result(old, new, sto) == (p, keyed));
    let t = key_refs(m.patches).to_multiset();
    let a = set_aside_refs(nd0);
    let all = new_keys(nd0).to_multiset();
    assert(t.add(a) =~= all);
    new_keys(nd0).lemma_multiset_has_no_duplicates();
    assert forall|x: u64| #[trigger] all.count(x) <= 1 by {
        if all.count(x) > 0 {
            assert(all.contains(x));
        }
    }
    assert forall|x: u64| all.count(x) > 0 implies keyed.contains_key(x) by {
        assert(new_keys(nd0).contains(x));
        let j = choose|j: int| 0 <= j < new_keys(nd0).len() && new_keys(nd0)[j] == x;
        assert(keyed.contains_key(nd0[j].0));
    }
    assert forall|k1: u64, x: u64| keyed.contains_key(k1) implies #[trigger] key_refs(
        keyed[k1],
    ).to_multiset().count(x) <= a.count(x) by {
        let j = choose|j: int|
            0 <= j < nd0.len() && nd0[j].0 == k1 && key_refs(keyed[k1]).to_multiset().subset_of(
                item_keys(nd0[j].1).to_multiset(),
            );
        lemma_set_aside_parts(nd0, j, j, x);
    }
    // every reference resolves
    assert forall|x: u64| #[trigger] key_refs(p).contains(x) implies keyed.contains_key(x) by {
        assert(t.count(x) > 0);
    }
    assert forall|k1: u64, x: u64|
        keyed.contains_key(k1) && #[trigger] key_refs(keyed[k1]).contains(x) implies keyed.contains_key(
        x,
    ) by {
        assert(key_refs(keyed[k1]).to_multiset().count(x) > 0);
        assert(a.count(x) > 0);
    }
    // and is made once
    lemma_once_no_duplicates(key_refs(p), all);
    assert forall|k1: u64| #[trigger] keyed.contains_key(k1) implies key_refs(
        keyed[k1],
    ).no_duplicates() by {
        assert forall|x: u64|
            key_refs(keyed[k1]).to_multiset().count(x) <= #[trigger] all.count(x) by {
            assert(key_refs(keyed[k1]).to_multiset().count(x) <= a.count(x));
        }
        lemma_once_no_duplicates(key_refs(keyed[k1]), all);
    }
    assert forall|k1: u64, x: u64|
        keyed.contains_key(k1) && #[trigger] key_refs(keyed[k1]).contains(x) implies !key_refs(
        p,
    ).contains(x) by {
        assert(key_refs(keyed[k1]).to_multiset().count(x) > 0);
        assert(a.count(x) > 0);
        if key_refs(p).contains(x) {
            assert(t.count(x) > 0);
            assert(all.count(x) <= 1);
        }
    }
    assert forall|k1: u64, k2: u64, x: u64|
        keyed.contains_key(k1) && keyed.contains_key(k2) && k1 != k2 && #[trigger] key_refs(
            keyed[k1],
        ).contains(x) implies !#[trigger] key_refs(keyed[k2]).contains(x) by {
        if key_refs(keyed[k2]).contains(x) {
            let j1 = choose|j: int|
                0 <= j < nd0.len() && nd0[j].0 == k1 && key_refs(keyed[k1]).to_multiset().subset_of(
                    item_keys(nd0[j].1).to_multiset(),
                );
            let j2 = choose|j: int|
                0 <= j < nd0.len() && nd0[j].0 == k2 && key_refs(keyed[k2]).to_multiset().subset_of(
                    item_keys(nd0[j].1).to_multiset(),
                );
            lemma_set_aside_parts(nd0, j1, j2, x);
            assert(key_refs(keyed[k1]).to_multiset().count(x) > 0);
            assert(key_refs(keyed[k2]).to_multiset().count(x) > 0);
            assert(all.count(x) <= 1);
        }
    }
}

// ---------------------------------------------------------------------------------------------
// Planning finds every keyed patch list it is sent to.
// ---------------------------------------------------------------------------------------------

pub(crate) proof fn lemma_key_refs_front<M, S>(ps: Seq<Patch<M, S>>, i: int)
    requires
        0 <= i < ps.len(),
    ensures
        key_refs(ps.skip(i)) == patch_key_ref(ps[i]) + key_refs(ps.skip(i + 1)),
{
    assert(ps.skip(i) =~= seq![ps[i]] + ps.skip(i + 1));
    lemma_key_refs_concat(seq![ps[i]], ps.skip(i + 1));
    lemma_key_refs_push(Seq::<Patch<M, S>>::empty(), ps[i]);
    assert(Seq::<Patch<M, S>>::empty().push(ps[i]) =~= seq![ps[i]]);
    assert(key_refs(Seq::<Patch<M, S>>::empty()) =~= Seq::<u64>::empty());
    assert(Seq::<u64>::empty() + patch_key_ref(ps[i]) =~= patch_key_ref(ps[i]));
}

/// Along a balanced list, a patch other than a reference to a keyed list plans, and keeps one
/// open node per node the patches left open.
proof fn lemma_plan_patch_balanced<M, S>(ps: Seq<Patch<M, S>>, i: int, st: PlanState<M, S>, fuel: nat)
    requires
        0 <= i < ps.len(),
        !(ps[i] is ReferenceKey),
        balanced_with_refs(ps),
        st.ns.stack.len() == patch_nesting(ps.take(i)),
    ensures
        plan_patch(ps[i], st, fuel) is Ok,
        plan_patch(ps[i], st, fuel)->Ok_0.0.ns.stack.len() == patch_nesting(ps.take(i + 1)),
{
    let p = ps[i];
    assert(ps.take(i + 1).drop_last() =~= ps.take(i));
    assert(ps.take(i + 1).last() == p);
    if works_on_node(p) || p is Up {
        assert(patch_nesting(ps.take(i)) > 0);
    }
    let r = plan_patch(p, st, fuel);
    if works_on_node(p) {
        let n = st.ns.last().unwrap();
        assert(r == Ok::<(PlanState<M, S>, Seq<Step<M, S>>), PlanError>(plan_on_node(p, st, n)));
    } else if patch_opens(p) {
        let k = st.next as usize;
        if p is CopyElement || p is ReplaceText || p is CopyText || p is CopyComponent
            || p is UpdateComponent {
            let (ns1, ins) = inserts_before::<M, S>(st.ns, Some(k)).unwrap();
            assert(ns1.stack.len() == st.ns.stack.len());
        }
    }
}

/// A patch that refers to no keyed list leaves the keyed lists alone, and cannot miss one.
proof fn lemma_plan_patch_keeps_keyed<M, S>(p: Patch<M, S>, st: PlanState<M, S>, fuel: nat)
    requires
        !(p is ReferenceKey),
    ensures
        match plan_patch(p, st, fuel) {
            Ok((st1, _)) => st1.keyed == st.keyed,
            Err(e) => !(e is MissingKey),
        },
{
}

/// A patch list that opens and closes nodes in balance, and may refer to keyed lists.
pub open spec fn balanced_with_refs<M, S>(ps: Seq<Patch<M, S>>) -> bool {
    &&& opens_before_use(ps)
    &&& patch_nesting(ps) == 0
}

/// Every keyed list of `keyed` is balanced.
pub open spec fn lists_balanced<M, S>(keyed: Map<u64, Seq<Patch<M, S>>>) -> bool {
    forall|k: u64| #[trigger] keyed.contains_key(k) ==> balanced_with_refs(keyed[k])
}

/// What planning a patch list does to the keyed lists: it only removes some, and each one it
/// removes is referred to by the list or by another one it removes.
pub open spec fn removes_only_referred<M, S>(
    ps: Seq<Patch<M, S>>,
    before: Map<u64, Seq<Patch<M, S>>>,
    after: Map<u64, Seq<Patch<M, S>>>,
) -> bool {
    &&& after.submap_of(before)
    &&& forall|k: u64|
        #[trigger] before.contains_key(k) && !after.contains_key(k) ==> key_refs(ps).contains(k)
            || exists|k2: u64|
            before.contains_key(k2) && !after.contains_key(k2) && #[trigger] key_refs(
                before[k2],
            ).contains(k)
}

pub(crate) proof fn lemma_plan_list_keys<M, S>(
    ps: Seq<Patch<M, S>>,
    keyed: Map<u64, Seq<Patch<M, S>>>,
    fuel: nat,
    next: nat,
    bal: bool,
)
    requires
        refs_resolve(ps, keyed),
        refs_once(ps, keyed),
        keyed.dom().finite(),
        keyed.dom().len() <= fuel,
        bal ==> balanced_with_refs(ps) && lists_balanced(keyed),
    ensures
        match plan_list(ps, keyed, fuel, next) {
            Ok(o) => removes_only_referred(ps, keyed, o.keyed),
            Err(e) => !(e is MissingKey) && !bal,
        },
    decreases fuel, ps.len() + 2,
{
    assert(ps.skip(0) =~= ps);
    assert(ps.take(0) =~= Seq::<Patch<M, S>>::empty());
    lemma_plan_from_keys(ps, 0, PlanState::start(keyed, next), fuel, bal);
}

proof fn lemma_plan_from_keys<M, S>(
    ps: Seq<Patch<M, S>>,
    i: int,
    st: PlanState<M, S>,
    fuel: nat,
    bal: bool,
)
    requires
        0 <= i <= ps.len(),
        refs_resolve(ps.skip(i), st.keyed),
        refs_once(ps.skip(i), st.keyed),
        st.keyed.dom().finite(),
        st.keyed.dom().len() <= fuel,
        bal ==> balanced_with_refs(ps) && lists_balanced(st.keyed) && st.ns.stack.len()
            == patch_nesting(ps.take(i)),
    ensures
        match plan_from(ps, i, st, fuel) {
            Ok(o) => removes_only_referred(ps.skip(i), st.keyed, o.keyed),
            Err(e) => !(e is MissingKey) && !bal,
        },
    decreases fuel, ps.len() - i + 1,
{
    let kd = st.keyed;
    if i < ps.len() {
        let p = ps[i];
        let rest = ps.skip(i + 1);
        lemma_key_refs_front(ps, i);
        assert forall|x: u64| #[trigger] key_refs(rest).contains(x) implies key_refs(
            ps.skip(i),
        ).contains(x) by {
            let a = choose|a: int| 0 <= a < key_refs(rest).len() && key_refs(rest)[a] == x;
            assert(key_refs(ps.skip(i))[patch_key_ref(p).len() + a] == x);
        }
        match p {
            Patch::ReferenceKey(key) => {
                assert(key_refs(ps.skip(i))[0] == key);
                assert(key_refs(ps.skip(i)).contains(key));
                assert(kd.contains_key(key));
                vstd::set_lib::lemma_set_empty_equivalency_len(kd.dom());
                let sub = kd[key];
                let k1 = kd.remove(key);
                assert(!key_refs(rest).contains(key)) by {
                    if key_refs(rest).contains(key) {
                        let a = choose|a: int| 0 <= a < key_refs(rest).len() && key_refs(rest)[a] == key;
                        assert(key_refs(ps.skip(i))[1 + a] == key);
                    }
                }
                assert(refs_resolve(sub, k1)) by {
                    assert forall|x: u64| #[trigger] key_refs(sub).contains(x) implies k1.contains_key(x) by {
                        assert(kd.contains_key(x));
                        if x == key {
                            assert(key_refs(ps.skip(i)).contains(key));
                        }
                    }
                    assert forall|ka: u64, x: u64|
                        k1.contains_key(ka) && #[trigger] key_refs(k1[ka]).contains(x) implies k1.contains_key(
                        x,
                    ) by {
                        assert(kd.contains_key(x));
                        assert(key_refs(kd[ka]).contains(x));
                        if x == key {
                            assert(key_refs(ps.skip(i)).contains(key));
                        }
                    }
                }
                assert(refs_once(sub, k1)) by {
                    assert forall|ka: u64, x: u64|
                        k1.contains_key(ka) && #[trigger] key_refs(k1[ka]).contains(x) implies !key_refs(
                        sub,
                    ).contains(x) by {
                        assert(key_refs(kd[ka]).contains(x));
                    }
                }
                assert(k1.dom() =~= kd.dom().remove(key));
                assert(bal ==> lists_balanced(k1)) by {
                    if bal {
                        assert forall|ka: u64| #[trigger] k1.contains_key(ka) implies balanced_with_refs(
                            k1[ka],
                        ) by {
                            assert(kd.contains_key(ka));
                        }
                    }
                }
                lemma_plan_list_keys(sub, k1, (fuel - 1) as nat, st.next, bal);
                if bal {
                    assert(ps.take(i + 1).drop_last() =~= ps.take(i));
                    assert(ps.take(i + 1).last() == p);
                }
                match plan_list(sub, k1, (fuel - 1) as nat, st.next) {
                    Ok(o) => {
                        let k2 = o.keyed;
                        let st1 = PlanState {
                            ns: st.ns.push_children(o.pending),
                            deferred: st.deferred,
                            keyed: k2,
                            next: o.next,
                        };
                        // a list left after the sub list refers to no list the sub list used
                        assert forall|x: u64|
                            k1.contains_key(x) && !k2.contains_key(x) implies (key_refs(sub).contains(x)
                            || exists|k3: u64|
                            kd.contains_key(k3) && !k2.contains_key(k3) && k3 != key && #[trigger] key_refs(
                                kd[k3],
                            ).contains(x)) by {
                            if !key_refs(sub).contains(x) {
                                let k3 = choose|k3: u64|
                                    k1.contains_key(k3) && !k2.contains_key(k3) && #[trigger] key_refs(
                                        k1[k3],
                                    ).contains(x);
                                assert(kd[k3] == k1[k3]);
                            }
                        }
                        assert(refs_resolve(rest, k2)) by {
                            assert forall|x: u64| #[trigger] key_refs(rest).contains(x) implies k2.contains_key(
                                x,
                            ) by {
                                assert(key_refs(ps.skip(i)).contains(x));
                                assert(kd.contains_key(x));
                                if !k2.contains_key(x) {
                                    assert(k1.contains_key(x));
                                    if key_refs(sub).contains(x) {
                                        assert(key_refs(kd[key]).contains(x));
                                    } else {
                                        let k3 = choose|k3: u64|
                                            kd.contains_key(k3) && !k2.contains_key(k3) && k3 != key
                                                && #[trigger] key_refs(kd[k3]).contains(x);
                                        assert(key_refs(kd[k3]).contains(x));
                                    }
                                }
                            }
                            assert forall|ka: u64, x: u64|
                                k2.contains_key(ka) && #[trigger] key_refs(k2[ka]).contains(x) implies k2.contains_key(
                                x,
                            ) by {
                                assert(k1.contains_key(ka));
                                assert(k2[ka] == k1[ka]);
                                assert(k1[ka] == kd[ka]);
                                assert(kd.contains_key(x));
                                assert(x != key);
                                if !k2.contains_key(x) {
                                    assert(k1.contains_key(x));
                                    if key_refs(sub).contains(x) {
                                        assert(ka != key);
                                    } else {
                                        let k3 = choose|k3: u64|
                                            kd.contains_key(k3) && !k2.contains_key(k3) && k3 != key
                                                && #[trigger] key_refs(kd[k3]).contains(x);
                                        assert(ka != k3);
                                    }
                                }
                            }
                        }
                        assert(refs_once(rest, k2)) by {
                            assert forall|a: int, b: int|
                                0 <= a < key_refs(rest).len() && 0 <= b < key_refs(rest).len() && a != b
                                implies key_refs(rest)[a] != key_refs(rest)[b] by {
                                assert(key_refs(ps.skip(i))[1 + a] == key_refs(rest)[a]);
                                assert(key_refs(ps.skip(i))[1 + b] == key_refs(rest)[b]);
                            }
                            assert forall|ka: u64| #[trigger] k2.contains_key(ka) implies key_refs(
                                k2[ka],
                            ).no_duplicates() by {
                                assert(k1.contains_key(ka));
                                assert(kd.contains_key(ka));
                            }
                            assert forall|ka: u64, x: u64|
                                k2.contains_key(ka) && #[trigger] key_refs(k2[ka]).contains(x) implies !key_refs(
                                rest,
                            ).contains(x) by {
                                assert(k1.contains_key(ka));
                                assert(kd.contains_key(ka));
                                assert(key_refs(kd[ka]).contains(x));
                            }
                            assert forall|ka: u64, kb: u64, x: u64|
                                k2.contains_key(ka) && k2.contains_key(kb) && ka != kb
                                    && #[trigger] key_refs(k2[ka]).contains(x) implies !#[trigger] key_refs(
                                k2[kb],
                            ).contains(x) by {
                                assert(k1.contains_key(ka));
                                assert(k1.contains_key(kb));
                                assert(key_refs(kd[ka]).contains(x));
                            }
                        }
                        assert(k2.dom().subset_of(kd.dom()));
                        vstd::set_lib::lemma_len_subset(k2.dom(), kd.dom());
                        assert(bal ==> lists_balanced(k2)) by {
                            if bal {
                                assert forall|ka: u64| #[trigger] k2.contains_key(ka) implies balanced_with_refs(
                                    k2[ka],
                                ) by {
                                    assert(k1.contains_key(ka));
                                    assert(kd.contains_key(ka));
                                }
                            }
                        }
                        lemma_plan_from_keys(ps, i + 1, st1, fuel, bal);
                        assert(plan_patch(p, st, fuel) == Ok::<(PlanState<M, S>, Seq<Step<M, S>>), PlanError>((st1, o.steps)));
                        match plan_from(ps, i + 1, st1, fuel) {
                            Ok(o2) => {
                                let k3 = o2.keyed;
                                assert(k2.submap_of(k1));
                                assert(k3.submap_of(k2));
                                assert(!k1.contains_key(key));
                                assert(!k3.contains_key(key)) by {
                                    if k3.contains_key(key) {
                                        assert(k3.dom().contains(key));
                                        assert(k2.dom().contains(key));
                                        assert(k1.dom().contains(key));
                                    }
                                }
                                assert forall|x: u64|
                                    #[trigger] kd.contains_key(x) && !k3.contains_key(x) implies key_refs(
                                    ps.skip(i),
                                ).contains(x) || exists|k4: u64|
                                    kd.contains_key(k4) && !k3.contains_key(k4) && #[trigger] key_refs(
                                        kd[k4],
                                    ).contains(x) by {
                                    if x == key {
                                        assert(key_refs(ps.skip(i)).contains(key));
                                    } else if !k2.contains_key(x) {
                                        assert(k1.contains_key(x));
                                        if key_refs(sub).contains(x) {
                                            assert(key_refs(kd[key]).contains(x));
                                        } else {
                                            let k5 = choose|k5: u64|
                                                kd.contains_key(k5) && !k2.contains_key(k5) && k5 != key
                                                    && #[trigger] key_refs(kd[k5]).contains(x);
                                            assert(!k3.contains_key(k5));
                                            assert(key_refs(kd[k5]).contains(x));
                                        }
                                    } else {
                                        if key_refs(rest).contains(x) {
                                            assert(key_refs(ps.skip(i)).contains(x));
                                        } else {
                                            let k5 = choose|k5: u64|
                                                k2.contains_key(k5) && !k3.contains_key(k5)
                                                    && #[trigger] key_refs(k2[k5]).contains(x);
                                            assert(k1.contains_key(k5));
                                            assert(kd[k5] == k2[k5]);
                                            assert(key_refs(kd[k5]).contains(x));
                                        }
                                    }
                                }
                            },
                            Err(e) => {},
                        }
                    },
                    Err(e) => {},
                }
            },
            _ => {
                lemma_plan_patch_keeps_keyed(p, st, fuel);
                assert(patch_key_ref(p) =~= Seq::<u64>::empty());
                assert(key_refs(ps.skip(i)) =~= key_refs(rest));
                if bal {
                    lemma_plan_patch_balanced(ps, i, st, fuel);
                }
                match plan_patch(p, st, fuel) {
                    Ok((st1, s1)) => {
                        lemma_plan_from_keys(ps, i + 1, st1, fuel, bal);
                    },
                    Err(e) => {},
                }
            },
        }
    } else {
        assert(kd.submap_of(kd));
        if bal {
            assert(ps.take(i) =~= ps);
        }
    }
}

/// Planning a patch set whose references to keyed lists resolve, each made once, never misses
/// a keyed list.
pub proof fn law_plan_finds_every_keyed_list<M, S>(ps: PatchSet<M, S>)
    requires
        refs_resolve(ps.patches@, ps.keyed_seqs()),
        refs_once(ps.patches@, ps.keyed_seqs()),
    ensures
        !(ps.planned() matches Err(PlanError::MissingKey(_))),
{
    vstd::std_specs::hash::axiom_hashmap_view_finite_dom(ps.keyed);
    assert(ps.keyed_seqs().dom() =~= ps.keyed@.dom());
    lemma_plan_list_keys(ps.patches@, ps.keyed_seqs(), ps.keyed@.dom().len(), 0, false);
}

/// The patch set of a diff never sends the plan to a keyed list that is not there or was used
/// already. (The new walk is one a `Dom` renders, which holds no `Key` item.)
pub proof fn law_diff_plans_without_missing_key<M: PartialEq, S>(
    old: Seq<DomItem<M>>,
    new: Seq<DomItem<M>>,
    sto: Seq<S>,
    ps: PatchSet<M, S>,
)
    requires
        no_key_refs(new),
        (ps.patches@, ps.keyed_seqs()) == diff_result(old, new, sto),
    ensures
        !(ps.planned() matches Err(PlanError::MissingKey(_))),
{
    law_diff_keyed_refs_resolve_once(old, new, sto);
    law_plan_finds_every_keyed_list(ps);
}

} // verus!
