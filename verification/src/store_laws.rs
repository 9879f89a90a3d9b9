//! What the diff promises of the storage of the new dom when keyed sub trees are set aside: over
//! its top level patch list and all its keyed patch lists, it stores one entry per item of the
//! new walk that owns one.
use vstd::prelude::*;
use crate::vdom::{
    DomItem, depth_change, is_keyed, lemma_nesting_concat, lemma_nesting_single,
    attached, lemma_storage_count_concat, nesting, no_key_refs, opens_node, storage_count,
    uses_storage, well_formed,
};
use crate::patch::{
    Patch, lemma_patch_store_count_concat, opens_before_use, patch_depth_change, patch_nesting,
    patch_store_count, patch_stores, works_on_node,
};
use crate::key_laws::{
    item_key, item_keys, key_refs, lemma_add_item_plain, lemma_first_index, lemma_item_keys_concat,
    lemma_item_keys_front, lemma_item_keys_push,
    lemma_key_refs_concat, lemma_key_refs_front, lemma_matched_quiet, lemma_no_keys_empty,
    lemma_no_refs, lemma_remove_item_old_side,
    lemma_run_keys_unique, patch_key_ref, plain_refs, refs_balanced, set_aside_refs,
    balanced_with_refs, lists_balanced, lemma_plan_list_keys, law_diff_keyed_refs_resolve_once,
};
use vstd::multiset::Multiset;
use crate::apply::{PlanError, PlanState, Step, plan_from, plan_list, plan_patch};
use crate::apply_laws::lemma_patch_counts;
use crate::diff_model::{
    DiffModel, Match, add_item, add_sub_tree, add_sub_tree_loop, compare, create_patch,
    defer_add_loop, defer_add_sub_tree, diff_result, finish_new, finish_old, first_index, match_of,
    remove_item, run, start, walk, walk_measure, walk_step,
    defer_remove_loop, defer_remove_sub_tree, held, key_of, new_keys, next_depth, old_keys,
    removal_patch, remove_sub_tree, remove_sub_tree_loop,
};
use crate::diff_laws::{
    attached_at, lemma_walk_open_ok, lemma_inside_prefix, lemma_inside_split, lemma_push_open_ok, texts_inside,
    texts_inside_at,
    closes_exactly, lemma_closes_first_up, lemma_closes_split, lemma_storage_count_single,
    lemma_store_count_push, lemma_walk_stores, rest_new, rest_old,
};

verus! {

/// The storage the set aside new sub trees own.
pub open spec fn set_aside_storage<M>(nd: Seq<(u64, Seq<DomItem<M>>)>) -> nat
    decreases nd.len(),
{
    if nd.len() == 0 {
        0
    } else {
        set_aside_storage(nd.drop_last()) + storage_count(nd.last().1)
    }
}

/// What the diff has accounted for so far: the entries its patches store, and the storage the
/// new sub trees it set aside own.
pub open spec fn accounted<M, S>(m: DiffModel<M, S>) -> nat {
    patch_store_count(m.patches) + set_aside_storage(m.new_def)
}

/// A set aside sub tree: a well formed walk whose attributes, inner html, event handlers and
/// text nodes all stand inside its root.
#[verifier::opaque]
pub open spec fn sub_tree_ok<M>(s: Seq<DomItem<M>>) -> bool {
    &&& well_formed(s)
    &&& attached(s)
    &&& texts_inside(s)
}

/// No proper prefix of `a` closes `d` nodes.
pub open spec fn stays_above<M>(a: Seq<DomItem<M>>, d: nat) -> bool {
    forall|k: int| 0 <= k < a.len() ==> #[trigger] nesting(a.take(k)) > -(d as int)
}

proof fn lemma_stays_above_join<M>(a1: Seq<DomItem<M>>, a2: Seq<DomItem<M>>, d: nat)
    requires
        well_formed(a1),
        stays_above(a2, d),
        d >= 1,
    ensures
        stays_above(a1 + a2, d),
{
    assert forall|k: int| 0 <= k < (a1 + a2).len() implies #[trigger] nesting((a1 + a2).take(k)) > -(
    d as int) by {
        if k <= a1.len() {
            assert((a1 + a2).take(k) =~= a1.take(k));
        } else {
            assert((a1 + a2).take(k) =~= a1 + a2.take(k - a1.len()));
            lemma_nesting_concat(a1, a2.take(k - a1.len()));
        }
    }
}

proof fn lemma_stays_above_cons<M>(i: DomItem<M>, a2: Seq<DomItem<M>>, d: nat)
    requires
        d >= 1,
        d + depth_change(i) >= 1,
        stays_above(a2, (d + depth_change(i)) as nat),
    ensures
        stays_above(seq![i] + a2, d),
{
    lemma_nesting_single(i);
    assert forall|k: int| 0 <= k < (seq![i] + a2).len() implies #[trigger] nesting(
        (seq![i] + a2).take(k),
    ) > -(d as int) by {
        if k == 0 {
            assert((seq![i] + a2).take(k) =~= Seq::<DomItem<M>>::empty());
        } else {
            assert((seq![i] + a2).take(k) =~= seq![i] + a2.take(k - 1));
            lemma_nesting_concat(seq![i], a2.take(k - 1));
        }
    }
}

/// A node, then a walk that closes it and nothing more before its end: everything inside
/// stands inside the node.
proof fn lemma_sub_tree_ok<M>(item: DomItem<M>, dd: Seq<DomItem<M>>)
    requires
        opens_node(item),
        !(item is Text),
        closes_exactly(dd, 1),
        stays_above(dd, 1),
    ensures
        sub_tree_ok(seq![item] + dd),
{
    let s = seq![item] + dd;
    lemma_closes_cons(item, dd, 0);
    lemma_nesting_single(item);
    assert forall|k: int| 1 <= k < s.len() implies #[trigger] nesting(s.take(k)) > 0 by {
        assert(s.take(k) =~= seq![item] + dd.take(k - 1));
        lemma_nesting_concat(seq![item], dd.take(k - 1));
    }
    assert(s[0] == item);
    assert(attached(s)) by {
        assert forall|k: int|
            #![trigger s[k]]
            0 <= k < s.len() && (s[k] is Attr || s[k] is Event || s[k] is UnsafeInnerHtml) implies nesting(
            s.take(k),
        ) > 0 by {
            if k == 0 {
                assert(s[0] == item);
            }
        }
    }
    assert(texts_inside(s)) by {
        assert forall|k: int| #![trigger s[k]] 0 <= k < s.len() && s[k] is Text implies 0 + nesting(
            s.take(k),
        ) > 0 by {
            if k == 0 {
                assert(s[0] == item);
            }
        }
    }
    reveal(sub_tree_ok);
}

/// The set aside new sub trees of `nd` from the `lo`-th on are well formed.
pub open spec fn new_entries_from<M>(nd: Seq<(u64, Seq<DomItem<M>>)>, lo: int) -> bool {
    forall|j: int| lo <= j < nd.len() ==> sub_tree_ok(#[trigger] nd[j].1)
}

/// `b` starts with `a`.
pub open spec fn starts_with<T>(a: Seq<T>, b: Seq<T>) -> bool {
    a.len() <= b.len() && b.take(a.len() as int) == a
}

/// A walk whose prefixes never close more than `d` nodes, followed by one that closes exactly
/// the nodes left open, closes exactly `d` nodes.
proof fn lemma_closes_join<M>(a: Seq<DomItem<M>>, b: Seq<DomItem<M>>, d: nat)
    requires
        forall|k: int| 0 <= k <= a.len() ==> #[trigger] nesting(a.take(k)) >= -(d as int),
        d + nesting(a) >= 0,
        closes_exactly(b, (d + nesting(a)) as nat),
    ensures
        closes_exactly(a + b, d),
{
    assert forall|k: int| 0 <= k <= (a + b).len() implies #[trigger] nesting((a + b).take(k)) >= -(
    d as int) by {
        if k <= a.len() {
            assert((a + b).take(k) =~= a.take(k));
        } else {
            assert((a + b).take(k) =~= a + b.take(k - a.len()));
            lemma_nesting_concat(a, b.take(k - a.len()));
        }
    }
    lemma_nesting_concat(a, b);
}

/// One item, then a walk that closes the nodes left open.
proof fn lemma_closes_cons<M>(i: DomItem<M>, b: Seq<DomItem<M>>, d: nat)
    requires
        d + depth_change(i) >= 0,
        closes_exactly(b, (d + depth_change(i)) as nat),
    ensures
        closes_exactly(seq![i] + b, d),
        nesting(seq![i] + b) == depth_change(i) + nesting(b),
{
    lemma_nesting_single(i);
    assert forall|k: int| 0 <= k <= seq![i].len() implies #[trigger] nesting(seq![i].take(k)) >= -(
    d as int) by {
        if k == 0 {
            assert(seq![i].take(k) =~= Seq::<DomItem<M>>::empty());
        } else {
            assert(seq![i].take(k) =~= seq![i]);
        }
    }
    lemma_closes_join(seq![i], b, d);
    lemma_nesting_concat(seq![i], b);
}

/// A well formed walk, then a walk that closes `d` nodes.
proof fn lemma_closes_after_tree<M>(a: Seq<DomItem<M>>, b: Seq<DomItem<M>>, d: nat)
    requires
        well_formed(a),
        closes_exactly(b, d),
    ensures
        closes_exactly(a + b, d),
{
    lemma_closes_join(a, b, d);
}

proof fn lemma_set_aside_storage_push<M>(nd: Seq<(u64, Seq<DomItem<M>>)>, e: (u64, Seq<DomItem<M>>))
    ensures
        set_aside_storage(nd.push(e)) == set_aside_storage(nd) + storage_count(e.1),
{
    assert(nd.push(e).drop_last() =~= nd);
}

/// Appending items to one set aside sub tree adds their storage.
proof fn lemma_set_aside_storage_extend<M>(
    nd: Seq<(u64, Seq<DomItem<M>>)>,
    i: int,
    t: Seq<DomItem<M>>,
)
    requires
        0 <= i < nd.len(),
    ensures
        set_aside_storage(nd.update(i, (nd[i].0, nd[i].1 + t))) == set_aside_storage(nd)
            + storage_count(t),
    decreases nd.len(),
{
    let u = nd.update(i, (nd[i].0, nd[i].1 + t));
    lemma_storage_count_concat(nd[i].1, t);
    if i == nd.len() - 1 {
        assert(u.drop_last() =~= nd.drop_last());
    } else {
        lemma_set_aside_storage_extend(nd.drop_last(), i, t);
        assert(u.drop_last() =~= nd.drop_last().update(i, (nd[i].0, nd[i].1 + t)));
    }
}

/// The keys of the `Key` items of `s` are set aside in `nd`, at the `lo`-th place or later.
pub open spec fn refs_after<M>(s: Seq<DomItem<M>>, nd: Seq<(u64, Seq<DomItem<M>>)>, lo: int) -> bool {
    forall|x: u64| #[trigger] item_keys(s).contains(x) ==> new_keys(nd).skip(lo).contains(x)
}

/// Each set aside new sub tree of `nd` from the `lo`-th on refers only to sub trees set aside
/// after it.
pub open spec fn ordered_from<M>(nd: Seq<(u64, Seq<DomItem<M>>)>, lo: int) -> bool {
    forall|j: int| lo <= j < nd.len() ==> refs_after(#[trigger] nd[j].1, nd, j + 1)
}

proof fn lemma_no_key_refs_split<M>(a: Seq<DomItem<M>>, b: Seq<DomItem<M>>)
    requires
        no_key_refs(a + b),
    ensures
        no_key_refs(a),
        no_key_refs(b),
{
    assert forall|k: int| 0 <= k < a.len() implies !(#[trigger] a[k] is Key) by {
        assert((a + b)[k] == a[k]);
    }
    assert forall|k: int| 0 <= k < b.len() implies !(#[trigger] b[k] is Key) by {
        assert((a + b)[a.len() + k] == b[k]);
    }
}

proof fn lemma_refs_after_mono<M>(
    s: Seq<DomItem<M>>,
    nd: Seq<(u64, Seq<DomItem<M>>)>,
    nd2: Seq<(u64, Seq<DomItem<M>>)>,
    lo: int,
    lo2: int,
)
    requires
        refs_after(s, nd, lo),
        starts_with(nd, nd2),
        0 <= lo2 <= lo <= nd.len(),
    ensures
        refs_after(s, nd2, lo2),
{
    assert forall|x: u64| #[trigger] item_keys(s).contains(x) implies new_keys(nd2).skip(lo2).contains(
        x,
    ) by {
        let a = choose|a: int| 0 <= a < new_keys(nd).skip(lo).len() && new_keys(nd).skip(lo)[a] == x;
        assert(new_keys(nd).len() == nd.len());
        assert(new_keys(nd).skip(lo)[a] == new_keys(nd)[lo + a]);
        assert(new_keys(nd)[lo + a] == nd[lo + a].0);
        assert(nd2.take(nd.len() as int) == nd);
        assert(nd2.take(nd.len() as int)[lo + a] == nd2[lo + a]);
        assert(new_keys(nd2).len() == nd2.len());
        assert(new_keys(nd2).skip(lo2)[lo - lo2 + a] == nd2[lo + a].0);
    }
}

proof fn lemma_ordered_mono<M>(nd: Seq<(u64, Seq<DomItem<M>>)>, nd2: Seq<(u64, Seq<DomItem<M>>)>, lo: int)
    requires
        ordered_from(nd, lo),
        starts_with(nd, nd2),
        ordered_from(nd2, nd.len() as int),
        0 <= lo,
    ensures
        ordered_from(nd2, lo),
{
    assert forall|j: int| lo <= j < nd2.len() implies refs_after(#[trigger] nd2[j].1, nd2, j + 1) by {
        if j < nd.len() {
            assert(nd2[j] == nd2.take(nd.len() as int)[j]);
            lemma_refs_after_mono(nd[j].1, nd, nd2, j + 1, j + 1);
        }
    }
}

proof fn lemma_refs_after_concat<M>(a: Seq<DomItem<M>>, b: Seq<DomItem<M>>, nd: Seq<(u64, Seq<DomItem<M>>)>, lo: int)
    requires
        refs_after(a, nd, lo),
        refs_after(b, nd, lo),
    ensures
        refs_after(a + b, nd, lo),
{
    lemma_item_keys_concat(a, b);
    assert forall|x: u64| #[trigger] item_keys(a + b).contains(x) implies new_keys(nd).skip(lo).contains(
        x,
    ) by {
        let k = choose|k: int| 0 <= k < item_keys(a + b).len() && item_keys(a + b)[k] == x;
        if k < item_keys(a).len() {
            assert(item_keys(a)[k] == x);
            assert(item_keys(a).contains(x));
        } else {
            assert(item_keys(b)[k - item_keys(a).len()] == x);
            assert(item_keys(b).contains(x));
        }
    }
}

/// A walk without `Key` items refers to no key.
proof fn lemma_refs_after_no_keys<M>(s: Seq<DomItem<M>>, nd: Seq<(u64, Seq<DomItem<M>>)>, lo: int)
    requires
        no_key_refs(s),
    ensures
        refs_after(s, nd, lo),
        item_keys(s) == Seq::<u64>::empty(),
    decreases s.len(),
{
    if s.len() > 0 {
        assert forall|k: int| 0 <= k < s.drop_last().len() implies !(#[trigger] s.drop_last()[k] is Key) by {
            assert(s.drop_last()[k] == s[k]);
        }
        lemma_refs_after_no_keys(s.drop_last(), nd, lo);
        assert(!(s[s.len() - 1] is Key));
        assert(item_key(s.last()) =~= Seq::<u64>::empty());
    }
    assert(item_keys(s) =~= Seq::<u64>::empty());
}

// ---------------------------------------------------------------------------------------------
// The new side: everything the new walk owns is stored by a patch or set aside, and every sub
// tree set aside is well formed.
// ---------------------------------------------------------------------------------------------

proof fn lemma_add_sub_tree_stores<M, S>(m: DiffModel<M, S>, e: nat) -> (t: Seq<DomItem<M>>)
    requires
        m.defer ==> no_key_refs(m.new),
        closes_exactly(m.new, e),
        e >= 1,
    ensures
        ({
            let (r, next) = add_sub_tree(m);
            &&& m.new == t + rest_new(r, next)
            &&& nesting(t) == -1
            &&& closes_exactly(rest_new(r, next), (e - 1) as nat)
            &&& next is None ==> r.new.len() == 0
            &&& accounted(r) == accounted(m) + storage_count(t)
            &&& new_entries_from(r.new_def, m.new_def.len() as int)
            &&& starts_with(m.new_def, r.new_def)
            &&& ordered_from(r.new_def, m.new_def.len() as int)
            &&& r.old == m.old
            &&& r.sto == m.sto
            &&& r.old_def == m.old_def
            &&& r.defer == m.defer
        }),
    decreases m.new.len(), 2nat,
{
    let (m1, i) = m.pop_new();
    assert(rest_new(m1, i) =~= m.new);
    lemma_add_loop_stores(m1, i, 0, e)
}

#[verifier::spinoff_prover]
#[verifier::rlimit(100)]
proof fn lemma_add_loop_stores<M, S>(
    m: DiffModel<M, S>,
    item: Option<DomItem<M>>,
    depth: nat,
    e: nat,
) -> (c: Seq<DomItem<M>>)
    requires
        m.defer ==> no_key_refs(rest_new(m, item)),
        item is None ==> m.new.len() == 0,
        closes_exactly(rest_new(m, item), e),
        e >= depth + 1,
    ensures
        ({
            let (r, next) = add_sub_tree_loop(m, item, depth);
            &&& rest_new(m, item) == c + rest_new(r, next)
            &&& nesting(c) == -(depth + 1)
            &&& closes_exactly(rest_new(r, next), (e - depth - 1) as nat)
            &&& next is None ==> r.new.len() == 0
            &&& accounted(r) == accounted(m) + storage_count(c)
            &&& new_entries_from(r.new_def, m.new_def.len() as int)
            &&& starts_with(m.new_def, r.new_def)
            &&& ordered_from(r.new_def, m.new_def.len() as int)
            &&& r.old == m.old
            &&& r.sto == m.sto
            &&& r.old_def == m.old_def
            &&& r.defer == m.defer
        }),
    decreases m.new.len() + held(item), 1nat,
{
    assert(m.new_def.take(m.new_def.len() as int) =~= m.new_def);
    match item {
        None => {
            assert(rest_new(m, item) =~= Seq::<DomItem<M>>::empty());
            assert(nesting(rest_new(m, item)) == 0);
            Seq::empty()
        },
        Some(i) => {
            let rn = rest_new(m, item);
            assert(rn =~= seq![i] + m.new);
            lemma_closes_split(seq![i], m.new, e);
            lemma_nesting_single(i);
            lemma_storage_count_single(i);
            if m.defer {
                lemma_no_key_refs_split(seq![i], m.new);
            }
            if is_keyed(i) && m.defer {
                let (t, _a) = lemma_defer_add_stores(m, i, None, e + 1);
                let (m2, _d, next) = defer_add_sub_tree(m, i, None);
                lemma_no_key_refs_split(t, rest_new(m2, next));
                assert(m2.new.len() + held(next) < m.new.len() + 1) by {
                    assert(t.len() > 0) by {
                        if t.len() == 0 {
                            assert(nesting(t) == 0);
                        }
                    }
                    assert(rest_new(m2, next).len() == m.new.len() - t.len());
                }
                let c1 = lemma_add_loop_stores(m2, next, depth, e);
                let (r, nx) = add_sub_tree_loop(m2, next, depth);
                lemma_ordered_mono(m2.new_def, r.new_def, m.new_def.len() as int);
                let c = seq![i] + t + c1;
                assert(rn =~= c + rest_new(r, nx));
                lemma_nesting_concat(seq![i] + t, c1);
                lemma_nesting_concat(seq![i], t);
                lemma_storage_count_concat(seq![i] + t, c1);
                lemma_storage_count_concat(seq![i], t);
                assert(r.new_def.take(m.new_def.len() as int) =~= m.new_def);
                assert forall|j: int| m.new_def.len() <= j < r.new_def.len() implies sub_tree_ok(
                    #[trigger] r.new_def[j].1,
                ) by {
                    if j < m2.new_def.len() {
                        assert(r.new_def.take(m2.new_def.len() as int)[j] == m2.new_def[j]);
                    }
                }
                c
            } else if i is Up && depth == 0 {
                lemma_store_count_push(m.patches, Patch::<M, S>::Up);
                let (r, nx) = add_sub_tree_loop(m, item, depth);
                assert(rest_new(r, nx) =~= m.new);
                assert(rn =~= seq![i] + rest_new(r, nx));
                seq![i]
            } else {
                let p = create_patch::<M, S>(i);
                lemma_store_count_push(m.patches, p);
                assert(patch_stores(p) == uses_storage(i));
                let (m2, next) = m.emit(p).pop_new();
                assert(rest_new(m2, next) =~= m.new);
                let c1 = lemma_add_loop_stores(m2, next, next_depth(i, depth), (e + depth_change(i)) as nat);
                let (r, nx) = add_sub_tree_loop(m, item, depth);
                assert(add_sub_tree_loop(m, item, depth) == add_sub_tree_loop(
                    m2,
                    next,
                    next_depth(i, depth),
                ));
                let c = seq![i] + c1;
                assert(rn =~= c + rest_new(r, nx));
                lemma_nesting_concat(seq![i], c1);
                lemma_storage_count_concat(seq![i], c1);
                c
            }
        },
    }
}

#[verifier::spinoff_prover]
#[verifier::rlimit(100)]
proof fn lemma_defer_add_stores<M, S>(
    m: DiffModel<M, S>,
    item: DomItem<M>,
    deferred: Option<Seq<DomItem<M>>>,
    e: nat,
) -> (res: (Seq<DomItem<M>>, Seq<DomItem<M>>))
    requires
        no_key_refs(m.new),
        is_keyed(item),
        closes_exactly(m.new, e),
        e >= 1,
    ensures
        ({
            let (r, d2, next) = defer_add_sub_tree(m, item, deferred);
            let (t, a) = res;
            &&& m.new == t + rest_new(r, next)
            &&& nesting(t) == -1
            &&& closes_exactly(rest_new(r, next), (e - 1) as nat)
            &&& next is None ==> r.new.len() == 0
            &&& deferred matches Some(x) ==> d2 == Some(x + a)
            &&& deferred is None ==> d2 is None && a == Seq::<DomItem<M>>::empty()
            &&& well_formed(a)
            &&& accounted(r) + storage_count(a) == accounted(m) + storage_count(seq![item] + t)
            &&& new_entries_from(r.new_def, m.new_def.len() as int)
            &&& starts_with(m.new_def, r.new_def)
            &&& ordered_from(r.new_def, m.new_def.len() as int)
            &&& refs_after(a, r.new_def, m.new_def.len() as int)
            &&& r.old == m.old
            &&& r.sto == m.sto
            &&& r.old_def == m.old_def
            &&& r.defer == m.defer
        }),
    decreases m.new.len() + 1, 0nat,
{
    let key = key_of(item);
    let empty = Seq::<DomItem<M>>::empty();
    assert(m.new_def.take(m.new_def.len() as int) =~= m.new_def);
    assert(well_formed(empty)) by {
        assert forall|k: int| 0 <= k <= empty.len() implies #[trigger] nesting(empty.take(k)) >= 0 by {
            assert(empty.take(k) =~= empty);
        }
    }
    assert(storage_count(empty) == 0);
    lemma_storage_count_single(item);
    lemma_storage_count_concat(seq![item], m.new);
    lemma_nesting_single(item);
    assert(opens_node(item));
    if new_keys(m.new_def).contains(key) {
        match deferred {
            Some(x) => {
                let (m2, first) = m.pop_new();
                assert(rest_new(m2, first) =~= m.new);
                let (c, a0) = lemma_defer_add_loop_stores(m2, first, 0, empty, e);
                let (m3, dd, next) = defer_add_loop(m2, first, 0, empty);
                assert(empty + a0 =~= a0);
                let a = seq![item] + a0;
                assert(x.push(item) + a0 =~= x + a);
                lemma_closes_cons(item, a0, 0);
                lemma_refs_after_no_keys(seq![item], m3.new_def, m.new_def.len() as int);
                lemma_refs_after_concat(seq![item], a0, m3.new_def, m.new_def.len() as int);
                lemma_storage_count_concat(seq![item], a0);
                lemma_storage_count_concat(seq![item], c);
                (c, a)
            },
            None => {
                let p = create_patch::<M, S>(item);
                lemma_store_count_push(m.patches, p);
                let t = lemma_add_sub_tree_stores(m.emit(p), e);
                lemma_storage_count_concat(seq![item], t);
                let (r, d2, next) = defer_add_sub_tree(m, item, deferred);
                lemma_refs_after_no_keys(empty, r.new_def, m.new_def.len() as int);
                (t, empty)
            },
        }
    } else {
        let (m1, d1) = match deferred {
            Some(x) => (m, Some(x.push(DomItem::Key(key)))),
            None => (m.emit(Patch::ReferenceKey(key)), None),
        };
        lemma_store_count_push(m.patches, Patch::<M, S>::ReferenceKey(key));
        let idx = m1.new_def.len() as int;
        let e0 = (key, seq![item]);
        let m2 = DiffModel { new_def: m1.new_def.push(e0), ..m1 };
        lemma_set_aside_storage_push(m1.new_def, e0);
        let (m3, first) = m2.pop_new();
        assert(rest_new(m3, first) =~= m.new);
        let (c, a0) = lemma_defer_add_loop_stores(m3, first, 0, empty, e);
        let (m4, dd, next) = defer_add_loop(m3, first, 0, empty);
        assert(empty + a0 =~= a0);
        assert(m4.new_def[idx] == m4.new_def.take(m3.new_def.len() as int)[idx]);
        assert(m4.new_def[idx] == e0);
        lemma_set_aside_storage_extend(m4.new_def, idx, a0);
        let r = DiffModel { new_def: m4.new_def.update(idx, (e0.0, e0.1 + a0)), ..m4 };
        assert(defer_add_sub_tree(m, item, deferred).0 == r);
        lemma_closes_cons(item, a0, 0);
        lemma_storage_count_concat(seq![item], c);
        assert forall|j: int| 0 <= j < m.new_def.len() implies r.new_def[j] == m.new_def[j] by {
            assert(m4.new_def.take(m3.new_def.len() as int)[j] == m3.new_def[j]);
        }
        assert(r.new_def.take(m.new_def.len() as int) =~= m.new_def);
        assert forall|j: int| m.new_def.len() <= j < r.new_def.len() implies sub_tree_ok(
            #[trigger] r.new_def[j].1,
        ) by {
            if j == idx {
                assert(r.new_def[j].1 == seq![item] + a0);
                lemma_sub_tree_ok(item, a0);
            } else {
                assert(r.new_def[j] == m4.new_def[j]);
            }
        }
        assert(new_keys(r.new_def) =~= new_keys(m4.new_def));
        assert(ordered_from(r.new_def, m.new_def.len() as int)) by {
            assert forall|j: int| m.new_def.len() <= j < r.new_def.len() implies refs_after(
                #[trigger] r.new_def[j].1,
                r.new_def,
                j + 1,
            ) by {
                if j == idx {
                    assert(r.new_def[j].1 == seq![item] + a0);
                    lemma_refs_after_no_keys(seq![item], r.new_def, j + 1);
                    lemma_refs_after_concat(seq![item], a0, r.new_def, j + 1);
                } else {
                    assert(r.new_def[j] == m4.new_def[j]);
                    assert(refs_after(m4.new_def[j].1, m4.new_def, j + 1));
                }
            }
        }
        let a = match deferred {
            Some(x) => seq![DomItem::<M>::Key(key)],
            None => empty,
        };
        if let Some(x) = deferred {
            assert(x.push(DomItem::Key(key)) =~= x + a);
            lemma_storage_count_single(DomItem::<M>::Key(key));
            lemma_closes_cons(DomItem::<M>::Key(key), empty, 0);
            assert(seq![DomItem::<M>::Key(key)] + empty =~= a);
            lemma_item_keys_push(empty, DomItem::<M>::Key(key));
            assert(empty.push(DomItem::<M>::Key(key)) =~= a);
            assert(item_keys(empty) =~= Seq::<u64>::empty());
            assert(item_keys(a) =~= seq![key]);
            assert(new_keys(r.new_def).skip(m.new_def.len() as int)[0] == key);
        } else {
            lemma_refs_after_no_keys(empty, r.new_def, m.new_def.len() as int);
        }
        (c, a)
    }
}

#[verifier::spinoff_prover]
#[verifier::rlimit(100)]
proof fn lemma_defer_add_loop_stores<M, S>(
    m: DiffModel<M, S>,
    item: Option<DomItem<M>>,
    depth: nat,
    d: Seq<DomItem<M>>,
    e: nat,
) -> (res: (Seq<DomItem<M>>, Seq<DomItem<M>>))
    requires
        no_key_refs(rest_new(m, item)),
        item is None ==> m.new.len() == 0,
        closes_exactly(rest_new(m, item), e),
        e >= depth + 1,
    ensures
        ({
            let (r, d2, next) = defer_add_loop(m, item, depth, d);
            let (c, a) = res;
            &&& d2 == d + a
            &&& rest_new(m, item) == c + rest_new(r, next)
            &&& nesting(c) == -(depth + 1)
            &&& closes_exactly(rest_new(r, next), (e - depth - 1) as nat)
            &&& closes_exactly(a, depth + 1)
            &&& stays_above(a, depth + 1)
            &&& next is None ==> r.new.len() == 0
            &&& accounted(r) + storage_count(a) == accounted(m) + storage_count(c)
            &&& new_entries_from(r.new_def, m.new_def.len() as int)
            &&& starts_with(m.new_def, r.new_def)
            &&& ordered_from(r.new_def, m.new_def.len() as int)
            &&& refs_after(a, r.new_def, m.new_def.len() as int)
            &&& r.old == m.old
            &&& r.sto == m.sto
            &&& r.old_def == m.old_def
            &&& r.defer == m.defer
        }),
    decreases m.new.len() + held(item), 1nat,
{
    assert(m.new_def.take(m.new_def.len() as int) =~= m.new_def);
    match item {
        None => {
            assert(rest_new(m, item) =~= Seq::<DomItem<M>>::empty());
            assert(nesting(rest_new(m, item)) == 0);
            (Seq::empty(), Seq::empty())
        },
        Some(i) => {
            let rn = rest_new(m, item);
            assert(rn =~= seq![i] + m.new);
            lemma_closes_split(seq![i], m.new, e);
            lemma_nesting_single(i);
            lemma_storage_count_single(i);
            lemma_no_key_refs_split(seq![i], m.new);
            if is_keyed(i) {
                let (t, a1) = lemma_defer_add_stores(m, i, Some(d), e + 1);
                let (m2, d2, next) = defer_add_sub_tree(m, i, Some(d));
                lemma_no_key_refs_split(t, rest_new(m2, next));
                let dd = d + a1;
                assert(m2.new.len() + held(next) < m.new.len() + 1) by {
                    assert(t.len() > 0) by {
                        if t.len() == 0 {
                            assert(nesting(t) == 0);
                        }
                    }
                    assert(rest_new(m2, next).len() == m.new.len() - t.len());
                }
                let (c1, a2) = lemma_defer_add_loop_stores(m2, next, depth, dd, e);
                let (r, d3, nx) = defer_add_loop(m2, next, depth, dd);
                let c = seq![i] + t + c1;
                let a = a1 + a2;
                lemma_ordered_mono(m2.new_def, r.new_def, m.new_def.len() as int);
                lemma_refs_after_mono(a1, m2.new_def, r.new_def, m.new_def.len() as int, m.new_def.len() as int);
                assert(r.new_def.take(r.new_def.len() as int) =~= r.new_def);
                lemma_refs_after_mono(a2, r.new_def, r.new_def, m2.new_def.len() as int, m.new_def.len() as int);
                lemma_refs_after_concat(a1, a2, r.new_def, m.new_def.len() as int);
                assert(d3 =~= d + a);
                assert(rn =~= c + rest_new(r, nx));
                lemma_nesting_concat(seq![i] + t, c1);
                lemma_nesting_concat(seq![i], t);
                lemma_storage_count_concat(seq![i] + t, c1);
                lemma_storage_count_concat(seq![i], t);
                lemma_storage_count_concat(a1, a2);
                lemma_closes_after_tree(a1, a2, depth + 1);
                lemma_stays_above_join(a1, a2, depth + 1);
                assert(r.new_def.take(m.new_def.len() as int) =~= m.new_def);
                assert forall|j: int| m.new_def.len() <= j < r.new_def.len() implies sub_tree_ok(
                    #[trigger] r.new_def[j].1,
                ) by {
                    if j < m2.new_def.len() {
                        assert(r.new_def.take(m2.new_def.len() as int)[j] == m2.new_def[j]);
                    }
                }
                (c, a)
            } else if i is Up && depth == 0 {
                let (r, d2, nx) = defer_add_loop(m, item, depth, d);
                assert(rest_new(r, nx) =~= m.new);
                assert(rn =~= seq![i] + rest_new(r, nx));
                assert(d.push(i) =~= d + seq![i]);
                lemma_closes_cons(i, Seq::<DomItem<M>>::empty(), 1);
                assert(seq![i] + Seq::<DomItem<M>>::empty() =~= seq![i]);
                assert(seq![i].take(0) =~= Seq::<DomItem<M>>::empty());
                lemma_refs_after_no_keys(seq![i], r.new_def, m.new_def.len() as int);
                (seq![i], seq![i])
            } else {
                let (m2, next) = m.pop_new();
                assert(rest_new(m2, next) =~= m.new);
                let (c1, a2) = lemma_defer_add_loop_stores(
                    m2,
                    next,
                    next_depth(i, depth),
                    d.push(i),
                    (e + depth_change(i)) as nat,
                );
                let (r, d3, nx) = defer_add_loop(m, item, depth, d);
                assert(defer_add_loop(m, item, depth, d) == defer_add_loop(
                    m2,
                    next,
                    next_depth(i, depth),
                    d.push(i),
                ));
                let c = seq![i] + c1;
                let a = seq![i] + a2;
                assert(d3 =~= d + a);
                assert(rn =~= c + rest_new(r, nx));
                lemma_nesting_concat(seq![i], c1);
                lemma_storage_count_concat(seq![i], c1);
                lemma_storage_count_concat(seq![i], a2);
                lemma_closes_cons(i, a2, depth + 1);
                lemma_stays_above_cons(i, a2, depth + 1);
                lemma_refs_after_no_keys(seq![i], r.new_def, m.new_def.len() as int);
                lemma_refs_after_concat(seq![i], a2, r.new_def, m.new_def.len() as int);
                (c, a)
            }
        },
    }
}

// ---------------------------------------------------------------------------------------------
// The old side stores nothing and leaves the new side alone, and every sub tree it sets aside is
// well formed.
// ---------------------------------------------------------------------------------------------

/// The set aside old sub trees of `od` from the `lo`-th on are well formed.
pub open spec fn old_entries_from<M, S>(od: Seq<(u64, Seq<DomItem<M>>, Seq<S>)>, lo: int) -> bool {
    forall|j: int| lo <= j < od.len() ==> sub_tree_ok(#[trigger] od[j].1)
}

/// `r` comes from `m` by work on the old side alone, which stores nothing.
pub open spec fn old_side_quiet<M, S>(m: DiffModel<M, S>, r: DiffModel<M, S>) -> bool {
    &&& r.new == m.new
    &&& r.new_def == m.new_def
    &&& patch_store_count(r.patches) == patch_store_count(m.patches)
    &&& old_entries_from(r.old_def, m.old_def.len() as int)
    &&& starts_with(m.old_def, r.old_def)
    &&& r.defer == m.defer
}

proof fn lemma_remove_sub_tree_shape<M, S>(m: DiffModel<M, S>, e: nat) -> (t: Seq<DomItem<M>>)
    requires
        closes_exactly(m.old, e),
        e >= 1,
    ensures
        ({
            let (r, next) = remove_sub_tree(m);
            &&& m.old == t + rest_old(r, next)
            &&& nesting(t) == -1
            &&& closes_exactly(rest_old(r, next), (e - 1) as nat)
            &&& next is None ==> r.old.len() == 0
            &&& old_side_quiet(m, r)
        }),
    decreases m.old.len(), 2nat,
{
    let (m1, i) = m.pop_old();
    assert(rest_old(m1, i) =~= m.old);
    lemma_remove_loop_shape(m1, i, 0, e)
}

#[verifier::spinoff_prover]
#[verifier::rlimit(50)]
proof fn lemma_remove_loop_shape<M, S>(
    m: DiffModel<M, S>,
    item: Option<DomItem<M>>,
    depth: nat,
    e: nat,
) -> (c: Seq<DomItem<M>>)
    requires
        item is None ==> m.old.len() == 0,
        closes_exactly(rest_old(m, item), e),
        e >= depth + 1,
    ensures
        ({
            let (r, next) = remove_sub_tree_loop(m, item, depth);
            &&& rest_old(m, item) == c + rest_old(r, next)
            &&& nesting(c) == -(depth + 1)
            &&& closes_exactly(rest_old(r, next), (e - depth - 1) as nat)
            &&& next is None ==> r.old.len() == 0
            &&& old_side_quiet(m, r)
        }),
    decreases m.old.len() + held(item), 1nat,
{
    assert(m.old_def.take(m.old_def.len() as int) =~= m.old_def);
    match item {
        None => {
            assert(rest_old(m, item) =~= Seq::<DomItem<M>>::empty());
            assert(nesting(rest_old(m, item)) == 0);
            Seq::empty()
        },
        Some(i) => {
            let ro = rest_old(m, item);
            assert(ro =~= seq![i] + m.old);
            lemma_closes_split(seq![i], m.old, e);
            lemma_nesting_single(i);
            if is_keyed(i) && m.defer {
                let (t, _a) = lemma_defer_remove_shape(m, i, None, e + 1);
                let (m2, _d, next) = defer_remove_sub_tree(m, i, None);
                assert(m2.old.len() + held(next) < m.old.len() + 1) by {
                    assert(t.len() > 0) by {
                        if t.len() == 0 {
                            assert(nesting(t) == 0);
                        }
                    }
                    assert(rest_old(m2, next).len() == m.old.len() - t.len());
                }
                let c1 = lemma_remove_loop_shape(m2, next, depth, e);
                let (r, nx) = remove_sub_tree_loop(m2, next, depth);
                let c = seq![i] + t + c1;
                assert(ro =~= c + rest_old(r, nx));
                lemma_nesting_concat(seq![i] + t, c1);
                lemma_nesting_concat(seq![i], t);
                assert(r.old_def.take(m.old_def.len() as int) =~= m.old_def);
                assert forall|j: int| m.old_def.len() <= j < r.old_def.len() implies sub_tree_ok(
                    #[trigger] r.old_def[j].1,
                ) by {
                    if j < m2.old_def.len() {
                        assert(r.old_def.take(m2.old_def.len() as int)[j] == m2.old_def[j]);
                    }
                }
                c
            } else if i is Up && depth == 0 {
                let (r, nx) = remove_sub_tree_loop(m, item, depth);
                assert(rest_old(r, nx) =~= m.old);
                assert(ro =~= seq![i] + rest_old(r, nx));
                seq![i]
            } else {
                let m2 = if i is Component {
                    let (m1, w) = m.take_sto();
                    lemma_store_count_push(m.patches, Patch::<M, S>::RemoveComponent(w));
                    m1.emit(Patch::RemoveComponent(w))
                } else if uses_storage(i) {
                    m.take_sto().0
                } else {
                    m
                };
                let (m3, next) = m2.pop_old();
                assert(rest_old(m3, next) =~= m.old);
                let c1 = lemma_remove_loop_shape(m3, next, next_depth(i, depth), (e + depth_change(i)) as nat);
                let (r, nx) = remove_sub_tree_loop(m, item, depth);
                assert(remove_sub_tree_loop(m, item, depth) == remove_sub_tree_loop(
                    m3,
                    next,
                    next_depth(i, depth),
                ));
                let c = seq![i] + c1;
                assert(ro =~= c + rest_old(r, nx));
                lemma_nesting_concat(seq![i], c1);
                c
            }
        },
    }
}

#[verifier::spinoff_prover]
#[verifier::rlimit(100)]
proof fn lemma_defer_remove_shape<M, S>(
    m: DiffModel<M, S>,
    item: DomItem<M>,
    deferred: Option<(Seq<DomItem<M>>, Seq<S>)>,
    e: nat,
) -> (res: (Seq<DomItem<M>>, Seq<DomItem<M>>))
    requires
        is_keyed(item),
        closes_exactly(m.old, e),
        e >= 1,
    ensures
        ({
            let (r, d2, next) = defer_remove_sub_tree(m, item, deferred);
            let (t, a) = res;
            &&& m.old == t + rest_old(r, next)
            &&& nesting(t) == -1
            &&& closes_exactly(rest_old(r, next), (e - 1) as nat)
            &&& next is None ==> r.old.len() == 0
            &&& deferred matches Some(x) ==> (d2 matches Some(y) && y.0 == x.0 + a)
            &&& deferred is None ==> d2 is None
            &&& well_formed(a)
            &&& old_side_quiet(m, r)
        }),
    decreases m.old.len() + 1, 0nat,
{
    let key = key_of(item);
    let empty = Seq::<DomItem<M>>::empty();
    assert(m.old_def.take(m.old_def.len() as int) =~= m.old_def);
    assert(well_formed(empty)) by {
        assert forall|k: int| 0 <= k <= empty.len() implies #[trigger] nesting(empty.take(k)) >= 0 by {
            assert(empty.take(k) =~= empty);
        }
    }
    lemma_nesting_single(item);
    assert(opens_node(item));
    let (m1, w) = m.take_sto();
    if old_keys(m1.old_def).contains(key) {
        match deferred {
            Some(x) => {
                let (m2, first) = m1.pop_old();
                assert(rest_old(m2, first) =~= m.old);
                let (c, a0) = lemma_defer_remove_loop_shape(m2, first, 0, empty, seq![], e);
                assert(empty + a0 =~= a0);
                let a = seq![item] + a0;
                assert(x.0.push(item) + a0 =~= x.0 + a);
                lemma_closes_cons(item, a0, 0);
                (c, a)
            },
            None => {
                let p = removal_patch::<M, S>(item, w);
                lemma_store_count_push(m1.patches, p);
                let t = lemma_remove_sub_tree_shape(m1.emit(p), e);
                (t, empty)
            },
        }
    } else {
        let idx = m1.old_def.len() as int;
        let e0 = (key, seq![item], seq![w]);
        let m2 = DiffModel { old_def: m1.old_def.push(e0), ..m1 };
        let (m3, first) = m2.pop_old();
        assert(rest_old(m3, first) =~= m.old);
        let (c, a0) = lemma_defer_remove_loop_shape(m3, first, 0, empty, seq![], e);
        let (m4, di, ds, next) = defer_remove_loop(m3, first, 0, empty, seq![]);
        assert(empty + a0 =~= a0);
        assert(m4.old_def[idx] == m4.old_def.take(m3.old_def.len() as int)[idx]);
        assert(m4.old_def[idx] == e0);
        let r = DiffModel { old_def: m4.old_def.update(idx, (e0.0, e0.1 + a0, e0.2 + ds)), ..m4 };
        assert(defer_remove_sub_tree(m, item, deferred).0 == r);
        lemma_closes_cons(item, a0, 0);
        assert forall|j: int| 0 <= j < m.old_def.len() implies r.old_def[j] == m.old_def[j] by {
            assert(m4.old_def.take(m3.old_def.len() as int)[j] == m3.old_def[j]);
        }
        assert(r.old_def.take(m.old_def.len() as int) =~= m.old_def);
        assert forall|j: int| m.old_def.len() <= j < r.old_def.len() implies sub_tree_ok(
            #[trigger] r.old_def[j].1,
        ) by {
            if j == idx {
                assert(r.old_def[j].1 == seq![item] + a0);
                lemma_sub_tree_ok(item, a0);
            } else {
                assert(r.old_def[j] == m4.old_def[j]);
            }
        }
        let a = match deferred {
            Some(x) => seq![DomItem::<M>::Key(key)],
            None => empty,
        };
        if let Some(x) = deferred {
            assert(x.0.push(DomItem::Key(key)) =~= x.0 + a);
            lemma_closes_cons(DomItem::<M>::Key(key), empty, 0);
            assert(seq![DomItem::<M>::Key(key)] + empty =~= a);
        }
        (c, a)
    }
}

#[verifier::spinoff_prover]
#[verifier::rlimit(50)]
proof fn lemma_defer_remove_loop_shape<M, S>(
    m: DiffModel<M, S>,
    item: Option<DomItem<M>>,
    depth: nat,
    di: Seq<DomItem<M>>,
    ds: Seq<S>,
    e: nat,
) -> (res: (Seq<DomItem<M>>, Seq<DomItem<M>>))
    requires
        item is None ==> m.old.len() == 0,
        closes_exactly(rest_old(m, item), e),
        e >= depth + 1,
    ensures
        ({
            let (r, di2, ds2, next) = defer_remove_loop(m, item, depth, di, ds);
            let (c, a) = res;
            &&& di2 == di + a
            &&& rest_old(m, item) == c + rest_old(r, next)
            &&& nesting(c) == -(depth + 1)
            &&& closes_exactly(rest_old(r, next), (e - depth - 1) as nat)
            &&& closes_exactly(a, depth + 1)
            &&& stays_above(a, depth + 1)
            &&& next is None ==> r.old.len() == 0
            &&& old_side_quiet(m, r)
        }),
    decreases m.old.len() + held(item), 1nat,
{
    assert(m.old_def.take(m.old_def.len() as int) =~= m.old_def);
    match item {
        None => {
            assert(rest_old(m, item) =~= Seq::<DomItem<M>>::empty());
            assert(nesting(rest_old(m, item)) == 0);
            (Seq::empty(), Seq::empty())
        },
        Some(i) => {
            let ro = rest_old(m, item);
            assert(ro =~= seq![i] + m.old);
            lemma_closes_split(seq![i], m.old, e);
            lemma_nesting_single(i);
            if is_keyed(i) {
                let (t, a1) = lemma_defer_remove_shape(m, i, Some((di, ds)), e + 1);
                let (m2, d2, next) = defer_remove_sub_tree(m, i, Some((di, ds)));
                let (di2, ds2) = d2->0;
                assert(m2.old.len() + held(next) < m.old.len() + 1) by {
                    assert(t.len() > 0) by {
                        if t.len() == 0 {
                            assert(nesting(t) == 0);
                        }
                    }
                    assert(rest_old(m2, next).len() == m.old.len() - t.len());
                }
                let (c1, a2) = lemma_defer_remove_loop_shape(m2, next, depth, di2, ds2, e);
                let (r, di3, ds3, nx) = defer_remove_loop(m2, next, depth, di2, ds2);
                let c = seq![i] + t + c1;
                let a = a1 + a2;
                assert(di3 =~= di + a);
                assert(ro =~= c + rest_old(r, nx));
                lemma_nesting_concat(seq![i] + t, c1);
                lemma_nesting_concat(seq![i], t);
                lemma_closes_after_tree(a1, a2, depth + 1);
                lemma_stays_above_join(a1, a2, depth + 1);
                assert(r.old_def.take(m.old_def.len() as int) =~= m.old_def);
                assert forall|j: int| m.old_def.len() <= j < r.old_def.len() implies sub_tree_ok(
                    #[trigger] r.old_def[j].1,
                ) by {
                    if j < m2.old_def.len() {
                        assert(r.old_def.take(m2.old_def.len() as int)[j] == m2.old_def[j]);
                    }
                }
                (c, a)
            } else if i is Up && depth == 0 {
                let (r, di2, ds2, nx) = defer_remove_loop(m, item, depth, di, ds);
                assert(rest_old(r, nx) =~= m.old);
                assert(ro =~= seq![i] + rest_old(r, nx));
                assert(di.push(i) =~= di + seq![i]);
                lemma_closes_cons(i, Seq::<DomItem<M>>::empty(), 1);
                assert(seq![i] + Seq::<DomItem<M>>::empty() =~= seq![i]);
                assert(seq![i].take(0) =~= Seq::<DomItem<M>>::empty());
                (seq![i], seq![i])
            } else {
                let (m2, ds2) = if uses_storage(i) {
                    let (a, w) = m.take_sto();
                    (a, ds.push(w))
                } else {
                    (m, ds)
                };
                let (m3, next) = m2.pop_old();
                assert(rest_old(m3, next) =~= m.old);
                let (c1, a2) = lemma_defer_remove_loop_shape(
                    m3,
                    next,
                    next_depth(i, depth),
                    di.push(i),
                    ds2,
                    (e + depth_change(i)) as nat,
                );
                let (r, di3, ds3, nx) = defer_remove_loop(m, item, depth, di, ds);
                assert(defer_remove_loop(m, item, depth, di, ds) == defer_remove_loop(
                    m3,
                    next,
                    next_depth(i, depth),
                    di.push(i),
                    ds2,
                ));
                let c = seq![i] + c1;
                let a = seq![i] + a2;
                assert(di3 =~= di + a);
                assert(ro =~= c + rest_old(r, nx));
                lemma_nesting_concat(seq![i], c1);
                lemma_closes_cons(i, a2, depth + 1);
                lemma_stays_above_cons(i, a2, depth + 1);
                (c, a)
            }
        },
    }
}

// ---------------------------------------------------------------------------------------------
// The lock step walk, setting keyed sub trees aside.
// ---------------------------------------------------------------------------------------------

/// Removing an item of the old dom other than a node end skips exactly the item, with its sub
/// tree when it is a node, and stores nothing.
proof fn lemma_remove_item_shape<M, S>(m: DiffModel<M, S>, x: DomItem<M>, d: nat) -> (c: Seq<
    DomItem<M>,
>)
    requires
        closes_exactly(rest_old(m, Some(x)), d),
        !(x is Up),
    ensures
        ({
            let (r, next) = remove_item(m, x);
            &&& rest_old(m, Some(x)) == c + rest_old(r, next)
            &&& c.len() >= 1
            &&& nesting(c) == 0
            &&& closes_exactly(rest_old(r, next), d)
            &&& next is None ==> r.old.len() == 0
            &&& old_side_quiet(m, r)
        }),
{
    let ro = rest_old(m, Some(x));
    assert(ro =~= seq![x] + m.old);
    lemma_closes_split(seq![x], m.old, d);
    lemma_nesting_single(x);
    assert(m.old_def.take(m.old_def.len() as int) =~= m.old_def);
    let (r, next) = remove_item(m, x);
    if is_keyed(x) && m.defer {
        let (t, _a) = lemma_defer_remove_shape(m, x, None, d + 1);
        assert(ro =~= (seq![x] + t) + rest_old(r, next));
        lemma_nesting_concat(seq![x], t);
        seq![x] + t
    } else if opens_node(x) {
        let (m1, w) = m.take_sto();
        let p = removal_patch::<M, S>(x, w);
        lemma_store_count_push(m1.patches, p);
        let t = lemma_remove_sub_tree_shape(m1.emit(p), d + 1);
        assert(ro =~= (seq![x] + t) + rest_old(r, next));
        lemma_nesting_concat(seq![x], t);
        seq![x] + t
    } else {
        match x {
            DomItem::UnsafeInnerHtml(_) => {
                lemma_store_count_push(m.patches, Patch::<M, S>::UnsetInnerHtml);
            },
            DomItem::Event { trigger, .. } => {
                let (m1, w) = m.take_sto();
                lemma_store_count_push(m1.patches, Patch::<M, S>::RemoveListener { trigger, take: w });
            },
            DomItem::Attr { name, .. } => {
                lemma_store_count_push(m.patches, Patch::<M, S>::RemoveAttribute(name));
            },
            _ => {},
        }
        assert(rest_old(r, next) =~= m.old);
        seq![x]
    }
}

/// Adding an item of the new dom other than a node end takes exactly the item, with its sub
/// tree when it is a node, and accounts for the storage it owns.
proof fn lemma_add_item_accounts<M, S>(m: DiffModel<M, S>, y: DomItem<M>, d: nat) -> (c: Seq<
    DomItem<M>,
>)
    requires
        m.defer ==> no_key_refs(rest_new(m, Some(y))),
        closes_exactly(rest_new(m, Some(y)), d),
        !(y is Up),
    ensures
        ({
            let (r, next) = add_item(m, y);
            &&& rest_new(m, Some(y)) == c + rest_new(r, next)
            &&& c.len() >= 1
            &&& nesting(c) == 0
            &&& closes_exactly(rest_new(r, next), d)
            &&& next is None ==> r.new.len() == 0
            &&& accounted(r) == accounted(m) + storage_count(c)
            &&& new_entries_from(r.new_def, m.new_def.len() as int)
            &&& starts_with(m.new_def, r.new_def)
            &&& ordered_from(r.new_def, m.new_def.len() as int)
            &&& r.old == m.old
            &&& r.sto == m.sto
            &&& r.old_def == m.old_def
            &&& r.defer == m.defer
        }),
{
    let rn = rest_new(m, Some(y));
    assert(rn =~= seq![y] + m.new);
    lemma_closes_split(seq![y], m.new, d);
    lemma_nesting_single(y);
    lemma_storage_count_single(y);
    assert(m.new_def.take(m.new_def.len() as int) =~= m.new_def);
    let (r, next) = add_item(m, y);
    let p = create_patch::<M, S>(y);
    lemma_store_count_push(m.patches, p);
    assert(patch_stores(p) == uses_storage(y));
    if m.defer {
        lemma_no_key_refs_split(seq![y], m.new);
    }
    if is_keyed(y) && m.defer {
        let (t, _a) = lemma_defer_add_stores(m, y, None, d + 1);
        assert(rn =~= (seq![y] + t) + rest_new(r, next));
        lemma_nesting_concat(seq![y], t);
        lemma_storage_count_concat(seq![y], t);
        seq![y] + t
    } else if opens_node(y) {
        let t = lemma_add_sub_tree_stores(m.emit(p), d + 1);
        assert(rn =~= (seq![y] + t) + rest_new(r, next));
        lemma_nesting_concat(seq![y], t);
        lemma_storage_count_concat(seq![y], t);
        seq![y] + t
    } else {
        assert(rest_new(r, next) =~= m.new);
        seq![y]
    }
}

/// One step of the lock step walk between two walks at the same depth, setting keyed sub trees
/// aside: both walks stay at the same depth, and what is accounted for plus what the rest of the
/// new walk owns stays the same.
#[verifier::spinoff_prover]
#[verifier::rlimit(100)]
proof fn lemma_step_accounts<M: PartialEq, S>(
    m: DiffModel<M, S>,
    o: Option<DomItem<M>>,
    n: Option<DomItem<M>>,
    d: nat,
) -> (d2: nat)
    requires
        m.defer ==> no_key_refs(rest_new(m, n)),
        closes_exactly(rest_old(m, o), d),
        closes_exactly(rest_new(m, n), d),
        o is None ==> m.old.len() == 0,
        n is None ==> m.new.len() == 0,
        o is Some || n is Some,
    ensures
        ({
            let (m2, o2, n2) = walk_step(m, o, n);
            &&& closes_exactly(rest_old(m2, o2), d2)
            &&& closes_exactly(rest_new(m2, n2), d2)
            &&& o2 is None ==> m2.old.len() == 0
            &&& n2 is None ==> m2.new.len() == 0
            &&& rest_old(m2, o2).len() + rest_new(m2, n2).len() < rest_old(m, o).len() + rest_new(
                m,
                n,
            ).len()
            &&& accounted(m2) + storage_count(rest_new(m2, n2)) == accounted(m) + storage_count(
                rest_new(m, n),
            )
            &&& new_entries_from(m2.new_def, m.new_def.len() as int)
            &&& starts_with(m.new_def, m2.new_def)
            &&& ordered_from(m2.new_def, m.new_def.len() as int)
            &&& m2.defer == m.defer
            &&& m.defer ==> no_key_refs(rest_new(m2, n2))
            &&& old_entries_from(m2.old_def, m.old_def.len() as int)
            &&& starts_with(m.old_def, m2.old_def)
        }),
{
    let (m2, o2, n2) = walk_step(m, o, n);
    assert(m.new_def.take(m.new_def.len() as int) =~= m.new_def);
    assert(m.old_def.take(m.old_def.len() as int) =~= m.old_def);
    match (o, n) {
        (None, Some(y)) => {
            assert(nesting(Seq::<DomItem<M>>::empty()) == 0);
            if y is Up {
                lemma_closes_first_up(rest_new(m, n), d);
            }
            let c = lemma_add_item_accounts(m, y, d);
            lemma_storage_count_concat(c, rest_new(m2, n2));
            if m.defer {
                lemma_no_key_refs_split(c, rest_new(m2, n2));
            }
            d
        },
        (Some(x), None) => {
            assert(nesting(Seq::<DomItem<M>>::empty()) == 0);
            if x is Up {
                lemma_closes_first_up(rest_old(m, o), d);
            }
            let c = lemma_remove_item_shape(m, x, d);
            assert(rest_new(m2, n2) == rest_new(m, n));
            d
        },
        (Some(x), Some(y)) => {
            assert(walk_step(m, o, n) == compare(m, x, y));
            assert(rest_old(m, o)[0] == x);
            assert(rest_new(m, n)[0] == y);
            lemma_nesting_single(x);
            lemma_nesting_single(y);
            assert(rest_old(m, o) =~= seq![x] + m.old);
            assert(rest_new(m, n) =~= seq![y] + m.new);
            lemma_storage_count_concat(seq![y], m.new);
            lemma_storage_count_single(y);
            match match_of(x, y) {
                Match::Differ => {
                    let (m1, on) = remove_item(m, x);
                    if x is Up {
                        assert(!(y is Up));
                        let c = lemma_add_item_accounts(m, y, d);
                        lemma_storage_count_concat(c, rest_new(m2, n2));
                        if m.defer {
                            lemma_no_key_refs_split(c, rest_new(m2, n2));
                        }
                        d
                    } else {
                        let co = lemma_remove_item_shape(m, x, d);
                        assert(rest_new(m1, n) == rest_new(m, n));
                        assert(accounted(m1) == accounted(m));
                        if y is Up {
                            assert(m2 == m1);
                        } else {
                            let c = lemma_add_item_accounts(m1, y, d);
                            lemma_storage_count_concat(c, rest_new(m2, n2));
                            if m.defer {
                                lemma_no_key_refs_split(c, rest_new(m2, n2));
                            }
                            assert(m2.old_def.take(m.old_def.len() as int) =~= m.old_def);
                            assert forall|j: int| m.new_def.len() <= j < m2.new_def.len() implies sub_tree_ok(
                                #[trigger] m2.new_def[j].1,
                            ) by {}
                        }
                        d
                    }
                },
                _ => {
                    assert(rest_old(m2, o2) =~= m.old);
                    assert(rest_new(m2, n2) =~= m.new);
                    if m.defer {
                        lemma_no_key_refs_split(seq![y], m.new);
                    }
                    lemma_closes_split(seq![x], m.old, d);
                    lemma_closes_split(seq![y], m.new, d);
                    match match_of(x, y) {
                        Match::Attrs => {
                            match (x, y) {
                                (DomItem::Attr { name: on, .. }, DomItem::Attr { name: nn, value: nv }) => {
                                    lemma_store_count_push(m.patches, Patch::<M, S>::RemoveAttribute(on));
                                    lemma_store_count_push(m.patches, Patch::<M, S>::SetAttribute { name: nn, value: nv });
                                    lemma_store_count_push(m.patches.push(Patch::<M, S>::RemoveAttribute(on)), Patch::<M, S>::SetAttribute { name: nn, value: nv });
                                },
                                _ => {},
                            }
                        },
                        Match::InnerHtml => {
                            match (x, y) {
                                (DomItem::UnsafeInnerHtml(_), DomItem::UnsafeInnerHtml(nh)) => {
                                    lemma_store_count_push(m.patches, Patch::<M, S>::SetInnerHtml(nh));
                                },
                                _ => {},
                            }
                        },
                        Match::Events => {
                            let (m1, w) = m.take_sto();
                            match (x, y) {
                                (DomItem::Event { trigger: ot, .. }, DomItem::Event { trigger: nt, handler: nh }) => {
                                    lemma_store_count_push(m.patches, Patch::<M, S>::RemoveListener { trigger: ot, take: w });
                                    lemma_store_count_push(m.patches.push(Patch::<M, S>::RemoveListener { trigger: ot, take: w }), Patch::<M, S>::AddListener { trigger: nt, handler: nh });
                                    lemma_store_count_push(m.patches, Patch::<M, S>::CopyListener(w));
                                },
                                _ => {},
                            }
                        },
                        _ => {
                            let (m1, w) = m.take_sto();
                            lemma_store_count_push(m.patches, m2.patches.last());
                            assert(m2.patches == m.patches.push(m2.patches.last()));
                        },
                    }
                    assert(m2.new_def == m.new_def);
                    assert(m2.old_def == m.old_def);
                    if y is Up {
                        (d - 1) as nat
                    } else if opens_node(y) {
                        d + 1
                    } else {
                        d
                    }
                },
            }
        },
        (None, None) => d,
    }
}

/// The lock step walk, setting keyed sub trees aside, accounts for everything the new walk owns,
/// and every sub tree it sets aside is well formed.
proof fn lemma_walk_accounts<M: PartialEq, S>(
    m: DiffModel<M, S>,
    o: Option<DomItem<M>>,
    n: Option<DomItem<M>>,
    d: nat,
)
    requires
        m.defer ==> no_key_refs(rest_new(m, n)),
        ordered_from(m.new_def, 0),
        closes_exactly(rest_old(m, o), d),
        closes_exactly(rest_new(m, n), d),
        o is None ==> m.old.len() == 0,
        n is None ==> m.new.len() == 0,
        new_entries_from(m.new_def, 0),
        old_entries_from(m.old_def, 0),
    ensures
        ordered_from(walk(m, o, n).new_def, 0),
        accounted(walk(m, o, n)) == accounted(m) + storage_count(rest_new(m, n)),
        new_entries_from(walk(m, o, n).new_def, 0),
        old_entries_from(walk(m, o, n).old_def, 0),
    decreases walk_measure(m, o, n),
{
    if o is None && n is None {
        assert(storage_count(rest_new(m, n)) == 0);
    } else {
        let d2 = lemma_step_accounts(m, o, n, d);
        let (m2, o2, n2) = walk_step(m, o, n);
        assert(walk_measure(m2, o2, n2) < walk_measure(m, o, n));
        lemma_ordered_mono(m.new_def, m2.new_def, 0);
        assert forall|j: int| 0 <= j < m2.new_def.len() implies sub_tree_ok(#[trigger] m2.new_def[j].1) by {
            if j < m.new_def.len() {
                assert(m2.new_def.take(m.new_def.len() as int)[j] == m.new_def[j]);
            }
        }
        assert forall|j: int| 0 <= j < m2.old_def.len() implies sub_tree_ok(#[trigger] m2.old_def[j].1) by {
            if j < m.old_def.len() {
                assert(m2.old_def.take(m.old_def.len() as int)[j] == m.old_def[j]);
            }
        }
        lemma_walk_accounts(m2, o2, n2, d2);
    }
}

// ---------------------------------------------------------------------------------------------
// Diffing the set aside sub trees, and the whole diff.
// ---------------------------------------------------------------------------------------------

/// A diff that sets nothing aside, between two well formed walks, stores one entry per item of
/// the new walk that owns one.
proof fn lemma_run_plain_stores<M: PartialEq, S>(
    old: Seq<DomItem<M>>,
    new: Seq<DomItem<M>>,
    sto: Seq<S>,
)
    requires
        well_formed(old),
        well_formed(new),
    ensures
        patch_store_count(run(old, new, sto, false).patches) == storage_count(new),
{
    let (m1, o) = start(old, new, sto, false).pop_old();
    let (m2, n) = m1.pop_new();
    assert(rest_old(m2, o) =~= old);
    assert(rest_new(m2, n) =~= new);
    assert(patch_store_count(Seq::<Patch<M, S>>::empty()) == 0);
    lemma_walk_stores(m2, o, n, 0);
}

/// Each keyed patch list of `keyed` belongs to a set aside new sub tree of `nd0`, stores one
/// entry per item of it that owns one, and refers to the key of each of its `Key` items, once.
pub open spec fn lists_store<M, S>(
    keyed: Map<u64, Seq<Patch<M, S>>>,
    nd0: Seq<(u64, Seq<DomItem<M>>)>,
) -> bool {
    forall|k: u64|
        #[trigger] keyed.contains_key(k) ==> exists|j: int|
            0 <= j < nd0.len() && nd0[j].0 == k && patch_store_count(keyed[k]) == storage_count(
                nd0[j].1,
            ) && key_refs(keyed[k]).to_multiset() == item_keys(nd0[j].1).to_multiset()
}

/// While the set aside sub trees are diffed: `nd` holds the new ones of `nd0` that have no list
/// yet, and every other one has its list in `keyed`.
pub open spec fn storing_finish<M, S>(
    keyed: Map<u64, Seq<Patch<M, S>>>,
    nd: Seq<(u64, Seq<DomItem<M>>)>,
    nd0: Seq<(u64, Seq<DomItem<M>>)>,
) -> bool {
    &&& lists_store(keyed, nd0)
    &&& forall|j: int| 0 <= j < nd.len() ==> nd0.contains(#[trigger] nd[j])
    &&& forall|j: int|
        0 <= j < nd0.len() ==> keyed.contains_key(#[trigger] nd0[j].0) || nd.contains(nd0[j])
    &&& forall|k: u64| #[trigger] keyed.contains_key(k) ==> !new_keys(nd).contains(k)
    &&& new_keys(nd).no_duplicates()
    &&& new_entries_from(nd0, 0)
}

proof fn lemma_finish_old_stores<M: PartialEq, S>(
    patches: Seq<Patch<M, S>>,
    keyed: Map<u64, Seq<Patch<M, S>>>,
    od: Seq<(u64, Seq<DomItem<M>>, Seq<S>)>,
    nd: Seq<(u64, Seq<DomItem<M>>)>,
    nd0: Seq<(u64, Seq<DomItem<M>>)>,
)
    requires
        storing_finish(keyed, nd, nd0),
        old_entries_from(od, 0),
    ensures
        ({
            let (p2, k2, nd2) = finish_old(patches, keyed, od, nd);
            &&& storing_finish(k2, nd2, nd0)
            &&& patch_store_count(p2) == patch_store_count(patches)
            &&& key_refs(p2) == key_refs(patches)
        }),
    decreases od.len(),
{
    if od.len() > 0 {
        let e = od[0];
        assert(sub_tree_ok(od[0].1));
        reveal(sub_tree_ok);
        assert(old_entries_from(od.drop_first(), 0)) by {
            assert forall|j: int| 0 <= j < od.drop_first().len() implies sub_tree_ok(
                #[trigger] od.drop_first()[j].1,
            ) by {
                assert(od.drop_first()[j] == od[j + 1]);
            }
        }
        lemma_first_index(new_keys(nd), e.0);
        match first_index(new_keys(nd), e.0) {
            Some(j) => {
                let sub = run(e.1, nd[j].1, e.2, false);
                assert(nd0.contains(nd[j]));
                let i0 = choose|i: int| 0 <= i < nd0.len() && nd0[i] == nd[j];
                assert(sub_tree_ok(nd0[i0].1));
                reveal(sub_tree_ok);
                lemma_run_plain_stores(e.1, nd[j].1, e.2);
                lemma_run_plain_refs_exact(e.1, nd[j].1, e.2);
                let k1 = keyed.insert(e.0, sub.patches);
                let n1 = nd.remove(j);
                assert(new_keys(n1) =~= new_keys(nd).remove(j));
                assert(storing_finish(k1, n1, nd0)) by {
                    assert forall|k: u64| #[trigger] k1.contains_key(k) implies exists|i: int|
                        0 <= i < nd0.len() && nd0[i].0 == k && patch_store_count(k1[k])
                            == storage_count(nd0[i].1) && key_refs(k1[k]).to_multiset()
                            == item_keys(nd0[i].1).to_multiset() by {
                        if k == e.0 {
                            assert(nd0[i0].0 == k);
                        } else {
                            assert(keyed.contains_key(k));
                        }
                    }
                    assert forall|i: int| 0 <= i < n1.len() implies nd0.contains(#[trigger] n1[i]) by {
                        if i < j {
                            assert(n1[i] == nd[i]);
                        } else {
                            assert(n1[i] == nd[i + 1]);
                        }
                    }
                    assert forall|i: int| 0 <= i < nd0.len() implies k1.contains_key(
                        #[trigger] nd0[i].0,
                    ) || n1.contains(nd0[i]) by {
                        if !keyed.contains_key(nd0[i].0) {
                            assert(nd.contains(nd0[i]));
                            let a = choose|a: int| 0 <= a < nd.len() && nd[a] == nd0[i];
                            if a < j {
                                assert(n1[a] == nd0[i]);
                            } else if a > j {
                                assert(n1[a - 1] == nd0[i]);
                            } else {
                                assert(nd0[i].0 == e.0);
                            }
                        }
                    }
                    assert forall|k: u64| #[trigger] k1.contains_key(k) implies !new_keys(n1).contains(
                        k,
                    ) by {
                        if new_keys(n1).contains(k) {
                            let a = choose|a: int| 0 <= a < new_keys(n1).len() && new_keys(n1)[a] == k;
                            if k != e.0 {
                                assert(keyed.contains_key(k));
                            }
                            if a < j {
                                assert(new_keys(nd)[a] == k);
                            } else {
                                assert(new_keys(nd)[a + 1] == k);
                            }
                        }
                    }
                    assert forall|a: int, b: int|
                        0 <= a < new_keys(n1).len() && 0 <= b < new_keys(n1).len() && a != b
                        implies new_keys(n1)[a] != new_keys(n1)[b] by {
                        let a1 = if a < j { a } else { a + 1 };
                        let b1 = if b < j { b } else { b + 1 };
                        assert(new_keys(n1)[a] == new_keys(nd)[a1]);
                        assert(new_keys(n1)[b] == new_keys(nd)[b1]);
                    }
                }
                lemma_finish_old_stores(patches, k1, od.drop_first(), n1, nd0);
            },
            None => {
                let sub = run(e.1, seq![], e.2, false);
                assert(well_formed(Seq::<DomItem<M>>::empty())) by {
                    let z = Seq::<DomItem<M>>::empty();
                    assert forall|k: int| 0 <= k <= z.len() implies #[trigger] nesting(z.take(k)) >= 0 by {
                        assert(z.take(k) =~= z);
                    }
                }
                lemma_run_plain_stores(e.1, seq![], e.2);
                lemma_run_plain_refs_exact(e.1, seq![], e.2);
                assert(item_keys(Seq::<DomItem<M>>::empty()) =~= Seq::<u64>::empty());
                lemma_no_keys_empty();
                lemma_no_refs(sub.patches);
                lemma_key_refs_concat(patches, sub.patches);
                assert(key_refs(patches) + Seq::<u64>::empty() =~= key_refs(patches));
                lemma_patch_store_count_concat(patches, sub.patches);
                lemma_finish_old_stores(patches + sub.patches, keyed, od.drop_first(), nd, nd0);
            },
        }
    }
}

proof fn lemma_finish_new_stores<M: PartialEq, S>(
    keyed: Map<u64, Seq<Patch<M, S>>>,
    nd: Seq<(u64, Seq<DomItem<M>>)>,
    nd0: Seq<(u64, Seq<DomItem<M>>)>,
)
    requires
        storing_finish(keyed, nd, nd0),
    ensures
        lists_store(finish_new(keyed, nd), nd0),
        forall|j: int| 0 <= j < nd0.len() ==> finish_new(keyed, nd).contains_key(#[trigger] nd0[j].0),
    decreases nd.len(),
{
    if nd.len() == 0 {
        assert forall|j: int| 0 <= j < nd0.len() implies keyed.contains_key(#[trigger] nd0[j].0) by {
            if !keyed.contains_key(nd0[j].0) {
                assert(nd.contains(nd0[j]));
            }
        }
    } else {
        let e = nd[0];
        let sub = run(seq![], e.1, seq![], false);
        assert(nd0.contains(nd[0]));
        let i0 = choose|i: int| 0 <= i < nd0.len() && nd0[i] == nd[0];
        assert(sub_tree_ok(nd0[i0].1));
        reveal(sub_tree_ok);
        assert(well_formed(Seq::<DomItem<M>>::empty())) by {
            let z = Seq::<DomItem<M>>::empty();
            assert forall|k: int| 0 <= k <= z.len() implies #[trigger] nesting(z.take(k)) >= 0 by {
                assert(z.take(k) =~= z);
            }
        }
        lemma_run_plain_stores(Seq::<DomItem<M>>::empty(), e.1, Seq::<S>::empty());
        lemma_run_plain_refs_exact(Seq::<DomItem<M>>::empty(), e.1, Seq::<S>::empty());
        let k1 = keyed.insert(e.0, sub.patches);
        let n1 = nd.drop_first();
        assert(new_keys(n1) =~= new_keys(nd).drop_first());
        assert(new_keys(nd)[0] == e.0);
        assert(storing_finish(k1, n1, nd0)) by {
            assert forall|k: u64| #[trigger] k1.contains_key(k) implies exists|i: int|
                0 <= i < nd0.len() && nd0[i].0 == k && patch_store_count(k1[k]) == storage_count(
                    nd0[i].1,
                ) && key_refs(k1[k]).to_multiset() == item_keys(nd0[i].1).to_multiset() by {
                if k == e.0 {
                    assert(nd0[i0].0 == k);
                } else {
                    assert(keyed.contains_key(k));
                }
            }
            assert forall|i: int| 0 <= i < n1.len() implies nd0.contains(#[trigger] n1[i]) by {
                assert(n1[i] == nd[i + 1]);
            }
            assert forall|i: int| 0 <= i < nd0.len() implies k1.contains_key(#[trigger] nd0[i].0)
                || n1.contains(nd0[i]) by {
                if !keyed.contains_key(nd0[i].0) {
                    assert(nd.contains(nd0[i]));
                    let a = choose|a: int| 0 <= a < nd.len() && nd[a] == nd0[i];
                    if a > 0 {
                        assert(n1[a - 1] == nd0[i]);
                    }
                }
            }
            assert forall|k: u64| #[trigger] k1.contains_key(k) implies !new_keys(n1).contains(k) by {
                if new_keys(n1).contains(k) {
                    let a = choose|a: int| 0 <= a < new_keys(n1).len() && new_keys(n1)[a] == k;
                    assert(new_keys(nd)[a + 1] == k);
                    if k == e.0 {
                        assert(new_keys(nd)[0] == k);
                    } else {
                        assert(keyed.contains_key(k));
                    }
                }
            }
            assert forall|a: int, b: int|
                0 <= a < new_keys(n1).len() && 0 <= b < new_keys(n1).len() && a != b implies new_keys(
                n1,
            )[a] != new_keys(n1)[b] by {
                assert(new_keys(n1)[a] == new_keys(nd)[a + 1]);
                assert(new_keys(n1)[b] == new_keys(nd)[b + 1]);
            }
        }
        lemma_finish_new_stores(k1, n1, nd0);
    }
}

/// The entries the keyed patch lists under the keys `ks` store.
pub open spec fn lists_store_count<M, S>(keyed: Map<u64, Seq<Patch<M, S>>>, ks: Seq<u64>) -> nat
    decreases ks.len(),
{
    if ks.len() == 0 {
        0
    } else {
        lists_store_count(keyed, ks.drop_last()) + patch_store_count(keyed[ks.last()])
    }
}

proof fn lemma_lists_store_count<M, S>(
    keyed: Map<u64, Seq<Patch<M, S>>>,
    nd: Seq<(u64, Seq<DomItem<M>>)>,
)
    requires
        forall|j: int|
            0 <= j < nd.len() ==> patch_store_count(keyed[#[trigger] nd[j].0]) == storage_count(
                nd[j].1,
            ),
    ensures
        lists_store_count(keyed, new_keys(nd)) == set_aside_storage(nd),
    decreases nd.len(),
{
    if nd.len() > 0 {
        let t = nd.drop_last();
        assert forall|j: int| 0 <= j < t.len() implies patch_store_count(keyed[#[trigger] t[j].0])
            == storage_count(t[j].1) by {
            assert(t[j] == nd[j]);
        }
        lemma_lists_store_count(keyed, t);
        assert(new_keys(nd).drop_last() =~= new_keys(t));
        assert(new_keys(nd).last() == nd.last().0);
        assert(patch_store_count(keyed[nd[nd.len() - 1].0]) == storage_count(nd[nd.len() - 1].1));
    } else {
        assert(new_keys(nd) =~= Seq::<u64>::empty());
    }
}

/// Re-rendering with keys: the diff of two well formed walks stores, over its top level patch
/// list and its keyed patch lists (each counted once, in some order of their keys), one entry
/// per node, listener and node end of the new walk. (The new walk is one a `Dom` renders, which
/// holds no `Key` item.)
pub proof fn law_diff_stores_one_entry_per_new_item_with_keys<M: PartialEq, S>(
    old: Seq<DomItem<M>>,
    new: Seq<DomItem<M>>,
    sto: Seq<S>,
)
    requires
        well_formed(old),
        well_formed(new),
        no_key_refs(new),
    ensures
        ({
            let (ps, keyed) = diff_result(old, new, sto);
            exists|ks: Seq<u64>|
                {
                    &&& ks.no_duplicates()
                    &&& ks.to_set() == keyed.dom()
                    &&& patch_store_count(ps) + lists_store_count(keyed, ks) == storage_count(new)
                }
        }),
{
    let (m1, o) = start(old, new, sto, true).pop_old();
    let (m2, n) = m1.pop_new();
    assert(rest_old(m2, o) =~= old);
    assert(rest_new(m2, n) =~= new);
    assert(patch_store_count(Seq::<Patch<M, S>>::empty()) == 0);
    assert(set_aside_storage(Seq::<(u64, Seq<DomItem<M>>)>::empty()) == 0);
    lemma_walk_accounts(m2, o, n, 0);
    let m = run(old, new, sto, true);
    lemma_run_keys_unique(old, new, sto);
    let nd0 = m.new_def;
    let e = Map::<u64, Seq<Patch<M, S>>>::empty();
    assert(storing_finish(e, nd0, nd0)) by {
        assert forall|j: int| 0 <= j < nd0.len() implies nd0.contains(#[trigger] nd0[j]) by {}
    }
    lemma_finish_old_stores(m.patches, e, m.old_def, nd0, nd0);
    let (p, k, nd1) = finish_old(m.patches, e, m.old_def, nd0);
    lemma_finish_new_stores(k, nd1, nd0);
    let keyed = finish_new(k, nd1);
    assert(diff_result(old, new, sto) == (p, keyed));
    let ks = new_keys(nd0);
    assert forall|j: int| 0 <= j < nd0.len() implies patch_store_count(keyed[#[trigger] nd0[j].0])
        == storage_count(nd0[j].1) by {
        assert(keyed.contains_key(nd0[j].0));
        let i = choose|i: int|
            0 <= i < nd0.len() && nd0[i].0 == nd0[j].0 && patch_store_count(keyed[nd0[j].0])
                == storage_count(nd0[i].1) && key_refs(keyed[nd0[j].0]).to_multiset() == item_keys(
                nd0[i].1,
            ).to_multiset();
        if i != j {
            assert(ks[i] == ks[j]);
        }
    }
    lemma_lists_store_count(keyed, nd0);
    assert(ks.to_set() =~= keyed.dom()) by {
        assert forall|x: u64| ks.to_set().contains(x) implies keyed.dom().contains(x) by {
            let j = choose|j: int| 0 <= j < ks.len() && ks[j] == x;
            assert(keyed.contains_key(nd0[j].0));
        }
        assert forall|x: u64| keyed.dom().contains(x) implies ks.to_set().contains(x) by {
            assert(keyed.contains_key(x));
            let j = choose|j: int|
                0 <= j < nd0.len() && nd0[j].0 == x && patch_store_count(keyed[x]) == storage_count(
                    nd0[j].1,
                ) && key_refs(keyed[x]).to_multiset() == item_keys(nd0[j].1).to_multiset();
            assert(ks[j] == x);
        }
    }
}

// ---------------------------------------------------------------------------------------------
// What planning stores: the entries of the patch list and of every keyed list it uses.
// ---------------------------------------------------------------------------------------------

proof fn lemma_lists_store_count_concat<M, S>(
    keyed: Map<u64, Seq<Patch<M, S>>>,
    a: Seq<u64>,
    b: Seq<u64>,
)
    ensures
        lists_store_count(keyed, a + b) == lists_store_count(keyed, a) + lists_store_count(keyed, b),
    decreases b.len(),
{
    if b.len() == 0 {
        assert(a + b =~= a);
    } else {
        lemma_lists_store_count_concat(keyed, a, b.drop_last());
        assert((a + b).drop_last() =~= a + b.drop_last());
        assert((a + b).last() == b.last());
    }
}

proof fn lemma_lists_store_count_single<M, S>(keyed: Map<u64, Seq<Patch<M, S>>>, x: u64)
    ensures
        lists_store_count(keyed, seq![x]) == patch_store_count(keyed[x]),
{
    let e = seq![x].drop_last();
    assert(e =~= Seq::<u64>::empty());
    assert(lists_store_count(keyed, e) == 0);
    assert(seq![x].last() == x);
}

/// Only the lists under the keys counted matter.
proof fn lemma_lists_store_count_same<M, S>(
    k1: Map<u64, Seq<Patch<M, S>>>,
    k2: Map<u64, Seq<Patch<M, S>>>,
    ks: Seq<u64>,
)
    requires
        forall|i: int| 0 <= i < ks.len() ==> k1[#[trigger] ks[i]] == k2[ks[i]],
    ensures
        lists_store_count(k1, ks) == lists_store_count(k2, ks),
    decreases ks.len(),
{
    if ks.len() > 0 {
        let t = ks.drop_last();
        assert forall|i: int| 0 <= i < t.len() implies k1[#[trigger] t[i]] == k2[t[i]] by {
            assert(t[i] == ks[i]);
        }
        lemma_lists_store_count_same(k1, k2, t);
        assert(k1[ks[ks.len() - 1]] == k2[ks[ks.len() - 1]]);
    }
}

/// The count does not depend on the order of the keys.
proof fn lemma_lists_store_count_perm<M, S>(
    keyed: Map<u64, Seq<Patch<M, S>>>,
    a: Seq<u64>,
    b: Seq<u64>,
)
    requires
        a.no_duplicates(),
        b.no_duplicates(),
        a.to_set() == b.to_set(),
    ensures
        lists_store_count(keyed, a) == lists_store_count(keyed, b),
    decreases a.len(),
{
    if a.len() == 0 {
        if b.len() > 0 {
            assert(b.to_set().contains(b[0]));
        }
        assert(b =~= Seq::<u64>::empty());
    } else {
        let x = a.last();
        let t = a.drop_last();
        assert(a.to_set().contains(x));
        assert(b.to_set().contains(x));
        let j = choose|j: int| 0 <= j < b.len() && b[j] == x;
        let u = b.take(j) + b.skip(j + 1);
        assert(b =~= b.take(j) + (seq![x] + b.skip(j + 1)));
        lemma_lists_store_count_concat(keyed, b.take(j), seq![x] + b.skip(j + 1));
        lemma_lists_store_count_concat(keyed, seq![x], b.skip(j + 1));
        lemma_lists_store_count_concat(keyed, b.take(j), b.skip(j + 1));
        assert(seq![x].drop_last() =~= Seq::<u64>::empty());
        assert(u.no_duplicates()) by {
            assert forall|p: int, q: int| 0 <= p < u.len() && 0 <= q < u.len() && p != q implies u[p]
                != u[q] by {
                let p1 = if p < j { p } else { p + 1 };
                let q1 = if q < j { q } else { q + 1 };
                assert(u[p] == b[p1]);
                assert(u[q] == b[q1]);
            }
        }
        assert(t.to_set() =~= u.to_set()) by {
            assert forall|y: u64| t.to_set().contains(y) implies u.to_set().contains(y) by {
                let p = choose|p: int| 0 <= p < t.len() && t[p] == y;
                assert(a[p] == y);
                assert(y != x) by {
                    assert(a[a.len() - 1] == x);
                }
                assert(b.to_set().contains(y));
                let q = choose|q: int| 0 <= q < b.len() && b[q] == y;
                if q < j {
                    assert(u[q] == y);
                } else {
                    assert(q != j);
                    assert(u[q - 1] == y);
                }
            }
            assert forall|y: u64| u.to_set().contains(y) implies t.to_set().contains(y) by {
                let q = choose|q: int| 0 <= q < u.len() && u[q] == y;
                let q1 = if q < j { q } else { q + 1 };
                assert(b[q1] == y);
                assert(y != x);
                assert(a.to_set().contains(y));
                let p = choose|p: int| 0 <= p < a.len() && a[p] == y;
                assert(p != a.len() - 1);
                assert(t[p] == y);
            }
        }
        lemma_lists_store_count_perm(keyed, t, u);
        lemma_lists_store_count_single(keyed, x);
        assert(lists_store_count(keyed, a) == lists_store_count(keyed, t) + patch_store_count(
            keyed[x],
        ));
    }
}

/// What planning a patch list used up: the keyed lists it removed, `rk`, each once, every one
/// its patches and the removed lists refer to; and the entries it stored, those of the list and
/// of the removed lists.
pub open spec fn plan_used<M, S>(
    ps: Seq<Patch<M, S>>,
    keyed: Map<u64, Seq<Patch<M, S>>>,
    after: Map<u64, Seq<Patch<M, S>>>,
    next: nat,
    next_after: nat,
    rk: Seq<u64>,
) -> bool {
    &&& rk.no_duplicates()
    &&& forall|x: u64| #[trigger] rk.contains(x) <==> keyed.contains_key(x) && !after.contains_key(x)
    &&& after.submap_of(keyed)
    &&& next_after == next + patch_store_count(ps) + lists_store_count(keyed, rk)
    &&& forall|x: u64| #[trigger] key_refs(ps).contains(x) ==> rk.contains(x)
    &&& forall|k2: u64, x: u64|
        rk.contains(k2) && #[trigger] key_refs(keyed[k2]).contains(x) ==> rk.contains(x)
}

pub(crate) proof fn lemma_plan_list_stores<M, S>(
    ps: Seq<Patch<M, S>>,
    keyed: Map<u64, Seq<Patch<M, S>>>,
    fuel: nat,
    next: nat,
) -> (rk: Seq<u64>)
    ensures
        plan_list(ps, keyed, fuel, next) matches Ok(o) ==> plan_used(
            ps,
            keyed,
            o.keyed,
            next,
            o.next,
            rk,
        ),
    decreases fuel, ps.len() + 2,
{
    assert(ps.skip(0) =~= ps);
    lemma_plan_from_stores(ps, 0, PlanState::start(keyed, next), fuel)
}

#[verifier::spinoff_prover]
#[verifier::rlimit(60)]
proof fn lemma_plan_from_stores<M, S>(
    ps: Seq<Patch<M, S>>,
    i: int,
    st: PlanState<M, S>,
    fuel: nat,
) -> (rk: Seq<u64>)
    requires
        0 <= i <= ps.len(),
    ensures
        plan_from(ps, i, st, fuel) matches Ok(o) ==> plan_used(
            ps.skip(i),
            st.keyed,
            o.keyed,
            st.next,
            o.next,
            rk,
        ),
    decreases fuel, ps.len() - i + 1,
{
    let kd = st.keyed;
    let empty = Seq::<u64>::empty();
    if i < ps.len() {
        let p = ps[i];
        let rest = ps.skip(i + 1);
        lemma_key_refs_front(ps, i);
        assert(ps.skip(i).drop_first() =~= rest);
        assert(ps.skip(i)[0] == p);
        assert forall|x: u64| #[trigger] key_refs(rest).contains(x) implies key_refs(
            ps.skip(i),
        ).contains(x) by {
            let a = choose|a: int| 0 <= a < key_refs(rest).len() && key_refs(rest)[a] == x;
            assert(key_refs(ps.skip(i))[patch_key_ref(p).len() + a] == x);
        }
        match p {
            Patch::ReferenceKey(key) => {
                if kd.contains_key(key) && fuel > 0 {
                    let sub = kd[key];
                    let k1 = kd.remove(key);
                    let rk1 = lemma_plan_list_stores(sub, k1, (fuel - 1) as nat, st.next);
                    match plan_list(sub, k1, (fuel - 1) as nat, st.next) {
                        Ok(o1) => {
                            let st1 = PlanState {
                                ns: st.ns.push_children(o1.pending),
                                deferred: st.deferred,
                                keyed: o1.keyed,
                                next: o1.next,
                            };
                            assert(plan_patch(p, st, fuel) == Ok::<(PlanState<M, S>, Seq<Step<M, S>>), PlanError>((st1, o1.steps)));
                            let rk2 = lemma_plan_from_stores(ps, i + 1, st1, fuel);
                            match plan_from(ps, i + 1, st1, fuel) {
                                Ok(o2) => {
                                    let k2 = o1.keyed;
                                    let k3 = o2.keyed;
                                    let rk = seq![key] + rk1 + rk2;
                                    assert(k2.dom().subset_of(k1.dom()));
                                    assert(k3.dom().subset_of(k2.dom()));
                                    assert(!k1.contains_key(key));
                                    assert forall|x: u64| #[trigger] rk.contains(x) <==> kd.contains_key(x)
                                        && !k3.contains_key(x) by {
                                        if rk.contains(x) {
                                            let a = choose|a: int| 0 <= a < rk.len() && rk[a] == x;
                                            if a == 0 {
                                            } else if a < 1 + rk1.len() {
                                                assert(rk1[a - 1] == x);
                                                assert(rk1.contains(x));
                                            } else {
                                                assert(rk2[a - 1 - rk1.len()] == x);
                                                assert(rk2.contains(x));
                                            }
                                        }
                                        if kd.contains_key(x) && !k3.contains_key(x) {
                                            if x == key {
                                                assert(rk[0] == x);
                                            } else if !k2.contains_key(x) {
                                                assert(rk1.contains(x));
                                                let a = choose|a: int| 0 <= a < rk1.len() && rk1[a] == x;
                                                assert(rk[1 + a] == x);
                                            } else {
                                                assert(rk2.contains(x));
                                                let a = choose|a: int| 0 <= a < rk2.len() && rk2[a] == x;
                                                assert(rk[1 + rk1.len() + a] == x);
                                            }
                                        }
                                    }
                                    assert(rk.no_duplicates()) by {
                                        assert forall|a: int, b: int| 0 <= a < rk.len() && 0 <= b < rk.len() && a != b
                                            implies rk[a] != rk[b] by {
                                            if rk[a] == rk[b] {
                                                let x = rk[a];
                                                if a == 0 || b == 0 {
                                                    let c = if a == 0 { b } else { a };
                                                    if c < 1 + rk1.len() {
                                                        assert(rk1.contains(rk1[c - 1]));
                                                    } else {
                                                        assert(rk2.contains(rk2[c - 1 - rk1.len()]));
                                                    }
                                                } else if a < 1 + rk1.len() && b < 1 + rk1.len() {
                                                    assert(rk1[a - 1] == rk1[b - 1]);
                                                } else if a >= 1 + rk1.len() && b >= 1 + rk1.len() {
                                                    assert(rk2[a - 1 - rk1.len()] == rk2[b - 1 - rk1.len()]);
                                                } else {
                                                    let (p1, p2) = if a < b { (a, b) } else { (b, a) };
                                                    assert(rk1.contains(rk1[p1 - 1]));
                                                    assert(rk2.contains(rk2[p2 - 1 - rk1.len()]));
                                                    assert(rk1[p1 - 1] == rk2[p2 - 1 - rk1.len()]);
                                                }
                                            }
                                        }
                                    }
                                    assert(k3.submap_of(kd)) by {
                                        assert forall|x: u64| #[trigger] k3.contains_key(x) implies kd.contains_key(x)
                                            && k3[x] == kd[x] by {
                                            assert(k2.contains_key(x));
                                            assert(k1.contains_key(x));
                                        }
                                    }
                                    // stores
                                    assert forall|a: int| 0 <= a < rk1.len() implies k1[#[trigger] rk1[a]] == kd[rk1[a]] by {
                                        assert(rk1.contains(rk1[a]));
                                    }
                                    lemma_lists_store_count_same(k1, kd, rk1);
                                    assert forall|a: int| 0 <= a < rk2.len() implies k2[#[trigger] rk2[a]] == kd[rk2[a]] by {
                                        assert(rk2.contains(rk2[a]));
                                        assert(k1.contains_key(rk2[a]));
                                    }
                                    lemma_lists_store_count_same(k2, kd, rk2);
                                    lemma_lists_store_count_concat(kd, seq![key] + rk1, rk2);
                                    lemma_lists_store_count_concat(kd, seq![key], rk1);
                                    assert(seq![key].drop_last() =~= Seq::<u64>::empty());
                                    lemma_lists_store_count_single(kd, key);
                                    assert(patch_store_count(ps.skip(i)) == patch_store_count(rest));
                                    assert(o2.next == st.next + patch_store_count(ps.skip(i))
                                        + lists_store_count(kd, rk));
                                    // references
                                    assert forall|x: u64| #[trigger] key_refs(ps.skip(i)).contains(x) implies rk.contains(x) by {
                                        let a = choose|a: int| 0 <= a < key_refs(ps.skip(i)).len() && key_refs(ps.skip(i))[a] == x;
                                        if a == 0 {
                                            assert(rk[0] == x);
                                        } else {
                                            assert(key_refs(rest)[a - 1] == x);
                                            assert(key_refs(rest).contains(x));
                                            let b = choose|b: int| 0 <= b < rk2.len() && rk2[b] == x;
                                            assert(rk[1 + rk1.len() + b] == x);
                                        }
                                    }
                                    assert forall|ka: u64, x: u64|
                                        rk.contains(ka) && #[trigger] key_refs(kd[ka]).contains(x) implies rk.contains(x) by {
                                        if ka == key {
                                            assert(key_refs(sub).contains(x));
                                            let b = choose|b: int| 0 <= b < rk1.len() && rk1[b] == x;
                                            assert(rk[1 + b] == x);
                                        } else if !k2.contains_key(ka) {
                                            assert(rk1.contains(ka));
                                            assert(k1[ka] == kd[ka]);
                                            let b = choose|b: int| 0 <= b < rk1.len() && rk1[b] == x;
                                            assert(rk[1 + b] == x);
                                        } else {
                                            assert(rk2.contains(ka));
                                            assert(k2[ka] == kd[ka]);
                                            let b = choose|b: int| 0 <= b < rk2.len() && rk2[b] == x;
                                            assert(rk[1 + rk1.len() + b] == x);
                                        }
                                    }
                                    return rk;
                                },
                                Err(_) => {
                                    return empty;
                                },
                            }
                        },
                        Err(_) => {
                            return empty;
                        },
                    }
                }
                empty
            },
            _ => {
                lemma_patch_counts(p, st, fuel);
                assert(patch_key_ref(p) =~= Seq::<u64>::empty());
                assert(key_refs(ps.skip(i)) =~= key_refs(rest));
                match plan_patch(p, st, fuel) {
                    Ok((st1, s1)) => {
                        lemma_plan_from_stores(ps, i + 1, st1, fuel)
                    },
                    Err(_) => empty,
                }
            },
        }
    } else {
        assert(ps.skip(i) =~= Seq::<Patch<M, S>>::empty());
        assert(key_refs(Seq::<Patch<M, S>>::empty()) =~= empty);
        assert(kd.submap_of(kd));
        empty
    }
}

// ---------------------------------------------------------------------------------------------
// A diff between two well formed walks that sets nothing aside refers to every `Key` item of
// its new walk.
// ---------------------------------------------------------------------------------------------

proof fn lemma_step_plain_refs<M: PartialEq, S>(
    m: DiffModel<M, S>,
    o: Option<DomItem<M>>,
    n: Option<DomItem<M>>,
)
    requires
        !m.defer,
        n is None ==> m.new.len() == 0,
    ensures
        ({
            let (m2, o2, n2) = walk_step(m, o, n);
            &&& plain_refs(m2, n2) == plain_refs(m, n)
            &&& n2 is None ==> m2.new.len() == 0
            &&& !m2.defer
        }),
{
    broadcast use vstd::multiset::group_multiset_axioms, vstd::seq_lib::group_to_multiset_ensures,
        vstd::seq_lib::lemma_multiset_commutative;

    let (m2, o2, n2) = walk_step(m, o, n);
    match (o, n) {
        (None, Some(y)) => {
            lemma_add_item_plain(m, y);
        },
        (Some(x), None) => {
            lemma_remove_item_old_side(m, x);
        },
        (Some(x), Some(y)) => {
            if match_of(x, y) is Differ {
                lemma_remove_item_old_side(m, x);
                let (m1, on) = remove_item(m, x);
                lemma_add_item_plain(m1, y);
                assert(plain_refs(m1, n) == plain_refs(m, n));
            } else {
                lemma_matched_quiet(m, x, y);
                lemma_item_keys_front(y, m.new);
                assert(item_key(y) =~= Seq::<u64>::empty());
                assert(rest_new(m2, n2) =~= m.new);
                assert(plain_refs(m2, n2) =~= plain_refs(m, n));
            }
        },
        (None, None) => {},
    }
}

proof fn lemma_walk_plain_refs_exact<M: PartialEq, S>(
    m: DiffModel<M, S>,
    o: Option<DomItem<M>>,
    n: Option<DomItem<M>>,
    d: nat,
)
    requires
        !m.defer,
        closes_exactly(rest_old(m, o), d),
        closes_exactly(rest_new(m, n), d),
        o is None ==> m.old.len() == 0,
        n is None ==> m.new.len() == 0,
    ensures
        key_refs(walk(m, o, n).patches).to_multiset() == plain_refs(m, n),
    decreases walk_measure(m, o, n),
{
    broadcast use vstd::multiset::group_multiset_axioms, vstd::seq_lib::group_to_multiset_ensures;

    if o is None && n is None {
        assert(rest_new(m, n) =~= Seq::<DomItem<M>>::empty());
        assert(item_keys(rest_new(m, n)) =~= Seq::<u64>::empty());
        lemma_no_keys_empty();
        assert(plain_refs(m, n) =~= key_refs(m.patches).to_multiset());
    } else {
        let d2 = lemma_step_accounts(m, o, n, d);
        lemma_step_plain_refs(m, o, n);
        let (m2, o2, n2) = walk_step(m, o, n);
        assert(walk_measure(m2, o2, n2) < walk_measure(m, o, n));
        lemma_walk_plain_refs_exact(m2, o2, n2, d2);
    }
}

/// A diff that sets nothing aside, between two well formed walks, refers to the key of every
/// `Key` item of its new walk, once per item.
proof fn lemma_run_plain_refs_exact<M: PartialEq, S>(
    old: Seq<DomItem<M>>,
    new: Seq<DomItem<M>>,
    sto: Seq<S>,
)
    requires
        well_formed(old),
        well_formed(new),
    ensures
        key_refs(run(old, new, sto, false).patches).to_multiset() == item_keys(new).to_multiset(),
{
    broadcast use vstd::multiset::group_multiset_axioms;

    let (m1, o) = start(old, new, sto, false).pop_old();
    let (m2, n) = m1.pop_new();
    assert(rest_old(m2, o) =~= old);
    assert(rest_new(m2, n) =~= new);
    assert(key_refs(Seq::<Patch<M, S>>::empty()) =~= Seq::<u64>::empty());
    lemma_no_keys_empty();
    assert(plain_refs(m2, n) =~= item_keys(new).to_multiset());
    lemma_walk_plain_refs_exact(m2, o, n, 0);
}

// ---------------------------------------------------------------------------------------------
// Re-rendering with keys.
// ---------------------------------------------------------------------------------------------

/// A key among the `Key` items of the set aside sub trees is among those of one of them.
proof fn lemma_set_aside_refs_source<M>(nd: Seq<(u64, Seq<DomItem<M>>)>, x: u64) -> (i: int)
    requires
        set_aside_refs(nd).count(x) > 0,
    ensures
        0 <= i < nd.len(),
        item_keys(nd[i].1).to_multiset().count(x) > 0,
    decreases nd.len(),
{
    broadcast use vstd::multiset::group_multiset_axioms;

    let t = nd.drop_last();
    if item_keys(nd.last().1).to_multiset().count(x) > 0 {
        nd.len() - 1
    } else {
        let i = lemma_set_aside_refs_source(t, x);
        assert(nd[i] == t[i]);
        i
    }
}

/// When the plan of a diff's patch set succeeds, it uses every keyed list: each set aside key
/// is referred to once, from the top level list or from a sub tree set aside before it.
proof fn lemma_all_lists_used<M, S>(
    p: Seq<Patch<M, S>>,
    keyed: Map<u64, Seq<Patch<M, S>>>,
    nd: Seq<(u64, Seq<DomItem<M>>)>,
    rk: Seq<u64>,
    j: int,
)
    requires
        0 <= j < nd.len(),
        key_refs(p).to_multiset().add(set_aside_refs(nd)) == new_keys(nd).to_multiset(),
        new_keys(nd).no_duplicates(),
        ordered_from(nd, 0),
        forall|i: int|
            0 <= i < nd.len() ==> #[trigger] keyed.contains_key(nd[i].0) && key_refs(
                keyed[nd[i].0],
            ).to_multiset() == item_keys(nd[i].1).to_multiset(),
        forall|x: u64| #[trigger] key_refs(p).contains(x) ==> rk.contains(x),
        forall|k2: u64, x: u64| rk.contains(k2) && #[trigger] key_refs(keyed[k2]).contains(x) ==> rk.contains(x),
    ensures
        rk.contains(nd[j].0),
    decreases j,
{
    broadcast use vstd::multiset::group_multiset_axioms, vstd::seq_lib::group_to_multiset_ensures;

    let x = nd[j].0;
    assert(new_keys(nd)[j] == x);
    assert(new_keys(nd).to_multiset().count(x) > 0);
    if key_refs(p).to_multiset().count(x) > 0 {
        assert(key_refs(p).contains(x));
    } else {
        let i = lemma_set_aside_refs_source(nd, x);
        assert(item_keys(nd[i].1).contains(x));
        assert(refs_after(nd[i].1, nd, i + 1));
        let tail = new_keys(nd).skip(i + 1);
        assert(tail.contains(x));
        let a = choose|a: int| 0 <= a < tail.len() && tail[a] == x;
        assert(new_keys(nd)[i + 1 + a] == x);
        assert(i + 1 + a == j);
        lemma_all_lists_used(p, keyed, nd, rk, i);
        assert(keyed.contains_key(nd[i].0));
        assert(key_refs(keyed[nd[i].0]).to_multiset().count(x) > 0);
        assert(key_refs(keyed[nd[i].0]).contains(x));
    }
}

/// Re-rendering a virtual dom with keys: when the plan of the diff between two well formed
/// walks succeeds, it builds exactly the storage that the next diff, against the new walk,
/// takes: one entry per node, listener and node end of the new walk; and it uses every keyed
/// patch list, so that each is reached from the top level list (none only from itself). (The new walk is one a
/// `Dom` renders, which holds no `Key` item.)
pub proof fn law_render_stores_what_next_diff_takes_with_keys<M: PartialEq, S>(
    old: Seq<DomItem<M>>,
    new: Seq<DomItem<M>>,
    sto: Seq<S>,
)
    requires
        well_formed(old),
        well_formed(new),
        no_key_refs(new),
    ensures
        ({
            let (ps, keyed) = diff_result(old, new, sto);
            let planned = plan_list(ps, keyed, keyed.dom().len(), 0);
            planned is Ok ==> planned->Ok_0.next == storage_count(new) && planned->Ok_0.keyed
                == Map::<u64, Seq<Patch<M, S>>>::empty()
        }),
{
    broadcast use vstd::multiset::group_multiset_axioms, vstd::seq_lib::group_to_multiset_ensures;

    let (m1, o) = start(old, new, sto, true).pop_old();
    let (m2, n) = m1.pop_new();
    assert(rest_old(m2, o) =~= old);
    assert(rest_new(m2, n) =~= new);
    assert(patch_store_count(Seq::<Patch<M, S>>::empty()) == 0);
    assert(set_aside_storage(Seq::<(u64, Seq<DomItem<M>>)>::empty()) == 0);
    lemma_walk_accounts(m2, o, n, 0);
    let m = run(old, new, sto, true);
    lemma_run_keys_unique(old, new, sto);
    let nd0 = m.new_def;
    let e = Map::<u64, Seq<Patch<M, S>>>::empty();
    assert(storing_finish(e, nd0, nd0)) by {
        assert forall|j: int| 0 <= j < nd0.len() implies nd0.contains(#[trigger] nd0[j]) by {}
    }
    lemma_finish_old_stores(m.patches, e, m.old_def, nd0, nd0);
    let (p, k, nd1) = finish_old(m.patches, e, m.old_def, nd0);
    lemma_finish_new_stores(k, nd1, nd0);
    let keyed = finish_new(k, nd1);
    assert(diff_result(old, new, sto) == (p, keyed));
    let ks = new_keys(nd0);
    assert forall|j: int| 0 <= j < nd0.len() implies #[trigger] keyed.contains_key(nd0[j].0)
        && patch_store_count(keyed[nd0[j].0]) == storage_count(nd0[j].1) && key_refs(
        keyed[nd0[j].0],
    ).to_multiset() == item_keys(nd0[j].1).to_multiset() by {
        assert(keyed.contains_key(nd0[j].0));
        let i = choose|i: int|
            0 <= i < nd0.len() && nd0[i].0 == nd0[j].0 && patch_store_count(keyed[nd0[j].0])
                == storage_count(nd0[i].1) && key_refs(keyed[nd0[j].0]).to_multiset() == item_keys(
                nd0[i].1,
            ).to_multiset();
        if i != j {
            assert(ks[i] == ks[j]);
        }
    }
    lemma_lists_store_count(keyed, nd0);
    assert(ks.to_set() =~= keyed.dom()) by {
        assert forall|x: u64| ks.to_set().contains(x) implies keyed.dom().contains(x) by {
            let j = choose|j: int| 0 <= j < ks.len() && ks[j] == x;
            assert(keyed.contains_key(nd0[j].0));
        }
        assert forall|x: u64| keyed.dom().contains(x) implies ks.to_set().contains(x) by {
            assert(keyed.contains_key(x));
            let j = choose|j: int|
                0 <= j < nd0.len() && nd0[j].0 == x && patch_store_count(keyed[x]) == storage_count(
                    nd0[j].1,
                ) && key_refs(keyed[x]).to_multiset() == item_keys(nd0[j].1).to_multiset();
            assert(ks[j] == x);
        }
    }
    let rk = lemma_plan_list_stores(p, keyed, keyed.dom().len(), 0);
    if let Ok(o) = plan_list(p, keyed, keyed.dom().len(), 0) {
        assert(key_refs(p).to_multiset().add(set_aside_refs(nd0)) =~= new_keys(nd0).to_multiset()) by {
            assert(key_refs(m.patches).to_multiset().add(set_aside_refs(m.new_def)).add(
                Multiset::empty(),
            ) == new_keys(m.new_def).to_multiset());
        }
        assert forall|j: int| 0 <= j < nd0.len() implies rk.contains(#[trigger] nd0[j].0) by {
            lemma_all_lists_used(p, keyed, nd0, rk, j);
        }
        assert(rk.to_set() =~= ks.to_set()) by {
            assert forall|x: u64| rk.to_set().contains(x) implies ks.to_set().contains(x) by {
                assert(rk.contains(x));
                assert(keyed.contains_key(x));
            }
            assert forall|x: u64| ks.to_set().contains(x) implies rk.to_set().contains(x) by {
                let j = choose|j: int| 0 <= j < ks.len() && ks[j] == x;
                assert(rk.contains(nd0[j].0));
            }
        }
        lemma_lists_store_count_perm(keyed, rk, ks);
        assert(o.keyed =~= Map::<u64, Seq<Patch<M, S>>>::empty()) by {
            assert forall|x: u64| !o.keyed.contains_key(x) by {
                if o.keyed.contains_key(x) {
                    assert(keyed.contains_key(x));
                    assert(ks.to_set().contains(x));
                    assert(rk.to_set().contains(x));
                }
            }
        }
    }
}

// ---------------------------------------------------------------------------------------------
// The patches of the new side and of the old side: each needs an open node only where one is
// open, and the sub trees created in place close what they open.
// ---------------------------------------------------------------------------------------------

proof fn lemma_add_sub_tree_patches<M, S>(m: DiffModel<M, S>, e: nat)
    requires
        m.defer ==> no_key_refs(m.new),
        closes_exactly(m.new, e),
        e >= 1,
        opens_before_use(m.patches),
        patch_nesting(m.patches) >= 1,
    ensures
        opens_before_use(add_sub_tree(m).0.patches),
        patch_nesting(add_sub_tree(m).0.patches) == patch_nesting(m.patches) - 1,
    decreases m.new.len(), 2nat,
{
    let (m1, i) = m.pop_new();
    assert(rest_new(m1, i) =~= m.new);
    lemma_add_loop_patches(m1, i, 0, e);
}

proof fn lemma_add_loop_patches<M, S>(
    m: DiffModel<M, S>,
    item: Option<DomItem<M>>,
    depth: nat,
    e: nat,
)
    requires
        m.defer ==> no_key_refs(rest_new(m, item)),
        item is None ==> m.new.len() == 0,
        closes_exactly(rest_new(m, item), e),
        e >= depth + 1,
        opens_before_use(m.patches),
        patch_nesting(m.patches) >= depth + 1,
    ensures
        opens_before_use(add_sub_tree_loop(m, item, depth).0.patches),
        patch_nesting(add_sub_tree_loop(m, item, depth).0.patches) == patch_nesting(m.patches) - (
        depth + 1),
    decreases m.new.len() + held(item), 1nat,
{
    match item {
        None => {
            assert(rest_new(m, item) =~= Seq::<DomItem<M>>::empty());
            assert(nesting(rest_new(m, item)) == 0);
        },
        Some(i) => {
            let rn = rest_new(m, item);
            assert(rn =~= seq![i] + m.new);
            lemma_closes_split(seq![i], m.new, e);
            lemma_nesting_single(i);
            if m.defer {
                lemma_no_key_refs_split(seq![i], m.new);
            }
            if is_keyed(i) && m.defer {
                let (t, _a) = lemma_defer_add_stores(m, i, None, e + 1);
                lemma_defer_add_patches(m, i, None, e + 1);
                let (m2, _d, next) = defer_add_sub_tree(m, i, None);
                lemma_no_key_refs_split(t, rest_new(m2, next));
                assert(m2.new.len() + held(next) < m.new.len() + 1) by {
                    assert(t.len() > 0) by {
                        if t.len() == 0 {
                            assert(nesting(t) == 0);
                        }
                    }
                    assert(rest_new(m2, next).len() == m.new.len() - t.len());
                }
                lemma_add_loop_patches(m2, next, depth, e);
            } else if i is Up && depth == 0 {
                lemma_push_open_ok(m.patches, Patch::<M, S>::Up, true);
            } else {
                let p = create_patch::<M, S>(i);
                assert(patch_depth_change(p) == depth_change(i));
                lemma_push_open_ok(m.patches, p, true);
                let (m2, next) = m.emit(p).pop_new();
                assert(rest_new(m2, next) =~= m.new);
                lemma_add_loop_patches(m2, next, next_depth(i, depth), (e + depth_change(i)) as nat);
                assert(add_sub_tree_loop(m, item, depth) == add_sub_tree_loop(
                    m2,
                    next,
                    next_depth(i, depth),
                ));
            }
        },
    }
}

proof fn lemma_defer_add_patches<M, S>(
    m: DiffModel<M, S>,
    item: DomItem<M>,
    deferred: Option<Seq<DomItem<M>>>,
    e: nat,
)
    requires
        no_key_refs(m.new),
        is_keyed(item),
        closes_exactly(m.new, e),
        e >= 1,
        deferred is None ==> opens_before_use(m.patches) && patch_nesting(m.patches) >= 0,
    ensures
        deferred is Some ==> defer_add_sub_tree(m, item, deferred).0.patches == m.patches,
        deferred is None ==> opens_before_use(defer_add_sub_tree(m, item, deferred).0.patches)
            && patch_nesting(defer_add_sub_tree(m, item, deferred).0.patches) == patch_nesting(
            m.patches,
        ),
    decreases m.new.len() + 1, 0nat,
{
    let key = key_of(item);
    let empty = Seq::<DomItem<M>>::empty();
    if new_keys(m.new_def).contains(key) {
        match deferred {
            Some(x) => {
                let (m2, first) = m.pop_new();
                assert(rest_new(m2, first) =~= m.new);
                lemma_defer_add_loop_patches(m2, first, 0, empty, e);
            },
            None => {
                let p = create_patch::<M, S>(item);
                assert(patch_depth_change(p) == 1);
                lemma_push_open_ok(m.patches, p, true);
                lemma_add_sub_tree_patches(m.emit(p), e);
            },
        }
    } else {
        let (m1, d1) = match deferred {
            Some(x) => (m, Some(x.push(DomItem::Key(key)))),
            None => (m.emit(Patch::ReferenceKey(key)), None),
        };
        if deferred is None {
            lemma_push_open_ok(m.patches, Patch::<M, S>::ReferenceKey(key), true);
        }
        let e0 = (key, seq![item]);
        let m2 = DiffModel { new_def: m1.new_def.push(e0), ..m1 };
        let (m3, first) = m2.pop_new();
        assert(rest_new(m3, first) =~= m.new);
        lemma_defer_add_loop_patches(m3, first, 0, empty, e);
    }
}

proof fn lemma_defer_add_loop_patches<M, S>(
    m: DiffModel<M, S>,
    item: Option<DomItem<M>>,
    depth: nat,
    d: Seq<DomItem<M>>,
    e: nat,
)
    requires
        no_key_refs(rest_new(m, item)),
        item is None ==> m.new.len() == 0,
        closes_exactly(rest_new(m, item), e),
        e >= depth + 1,
    ensures
        defer_add_loop(m, item, depth, d).0.patches == m.patches,
    decreases m.new.len() + held(item), 1nat,
{
    match item {
        None => {},
        Some(i) => {
            let rn = rest_new(m, item);
            assert(rn =~= seq![i] + m.new);
            lemma_closes_split(seq![i], m.new, e);
            lemma_nesting_single(i);
            lemma_no_key_refs_split(seq![i], m.new);
            if is_keyed(i) {
                let (t, a1) = lemma_defer_add_stores(m, i, Some(d), e + 1);
                lemma_defer_add_patches(m, i, Some(d), e + 1);
                let (m2, d2, next) = defer_add_sub_tree(m, i, Some(d));
                lemma_no_key_refs_split(t, rest_new(m2, next));
                assert(m2.new.len() + held(next) < m.new.len() + 1) by {
                    assert(t.len() > 0) by {
                        if t.len() == 0 {
                            assert(nesting(t) == 0);
                        }
                    }
                    assert(rest_new(m2, next).len() == m.new.len() - t.len());
                }
                lemma_defer_add_loop_patches(m2, next, depth, d + a1, e);
            } else if i is Up && depth == 0 {
            } else {
                let (m2, next) = m.pop_new();
                assert(rest_new(m2, next) =~= m.new);
                lemma_defer_add_loop_patches(
                    m2,
                    next,
                    next_depth(i, depth),
                    d.push(i),
                    (e + depth_change(i)) as nat,
                );
            }
        },
    }
}

/// The old side emits only patches that remove a node, which need no open node and close none.
pub open spec fn removals_only<M, S>(m: DiffModel<M, S>, r: DiffModel<M, S>) -> bool {
    opens_before_use(m.patches) ==> opens_before_use(r.patches) && patch_nesting(r.patches)
        == patch_nesting(m.patches)
}

proof fn lemma_remove_sub_tree_patches<M, S>(m: DiffModel<M, S>)
    ensures
        removals_only(m, remove_sub_tree(m).0),
    decreases m.old.len(), 2nat,
{
    let (m1, i) = m.pop_old();
    lemma_remove_loop_patches(m1, i, 0);
}

proof fn lemma_remove_loop_patches<M, S>(m: DiffModel<M, S>, item: Option<DomItem<M>>, depth: nat)
    ensures
        removals_only(m, remove_sub_tree_loop(m, item, depth).0),
    decreases m.old.len() + held(item), 1nat,
{
    match item {
        None => {},
        Some(i) => {
            if is_keyed(i) && m.defer {
                let (m2, _d, next) = defer_remove_sub_tree(m, i, None);
                lemma_defer_remove_patches(m, i, None);
                if m2.old.len() + held(next) < m.old.len() + 1 {
                    lemma_remove_loop_patches(m2, next, depth);
                }
            } else if i is Up && depth == 0 {
            } else {
                let m2 = if i is Component {
                    let (m1, w) = m.take_sto();
                    if opens_before_use(m.patches) {
                        lemma_push_open_ok(m.patches, Patch::<M, S>::RemoveComponent(w), true);
                    }
                    m1.emit(Patch::RemoveComponent(w))
                } else if uses_storage(i) {
                    m.take_sto().0
                } else {
                    m
                };
                let (m3, next) = m2.pop_old();
                lemma_remove_loop_patches(m3, next, next_depth(i, depth));
            }
        },
    }
}

proof fn lemma_defer_remove_patches<M, S>(
    m: DiffModel<M, S>,
    item: DomItem<M>,
    deferred: Option<(Seq<DomItem<M>>, Seq<S>)>,
)
    requires
        is_keyed(item),
    ensures
        removals_only(m, defer_remove_sub_tree(m, item, deferred).0),
    decreases m.old.len() + 1, 0nat,
{
    let key = key_of(item);
    let (m1, w) = m.take_sto();
    if old_keys(m1.old_def).contains(key) {
        match deferred {
            Some(d) => {
                let (m2, first) = m1.pop_old();
                lemma_defer_remove_loop_patches(m2, first, 0, seq![], seq![]);
            },
            None => {
                let p = removal_patch::<M, S>(item, w);
                assert(!works_on_node(p) && !(p is Up));
                if opens_before_use(m1.patches) {
                    lemma_push_open_ok(m1.patches, p, true);
                }
                lemma_remove_sub_tree_patches(m1.emit(p));
            },
        }
    } else {
        let m2 = DiffModel { old_def: m1.old_def.push((key, seq![item], seq![w])), ..m1 };
        let (m3, first) = m2.pop_old();
        lemma_defer_remove_loop_patches(m3, first, 0, seq![], seq![]);
    }
}

proof fn lemma_defer_remove_loop_patches<M, S>(
    m: DiffModel<M, S>,
    item: Option<DomItem<M>>,
    depth: nat,
    di: Seq<DomItem<M>>,
    ds: Seq<S>,
)
    ensures
        removals_only(m, defer_remove_loop(m, item, depth, di, ds).0),
    decreases m.old.len() + held(item), 1nat,
{
    match item {
        None => {},
        Some(i) => {
            if is_keyed(i) {
                let (m2, d2, next) = defer_remove_sub_tree(m, i, Some((di, ds)));
                lemma_defer_remove_patches(m, i, Some((di, ds)));
                let (di2, ds2) = match d2 {
                    Some(d) => d,
                    None => (di, ds),
                };
                if m2.old.len() + held(next) < m.old.len() + 1 {
                    lemma_defer_remove_loop_patches(m2, next, depth, di2, ds2);
                }
            } else if i is Up && depth == 0 {
            } else {
                let (m2, ds2) = if uses_storage(i) {
                    let (a, w) = m.take_sto();
                    (a, ds.push(w))
                } else {
                    (m, ds)
                };
                let (m3, next) = m2.pop_old();
                lemma_defer_remove_loop_patches(m3, next, next_depth(i, depth), di.push(i), ds2);
            }
        },
    }
}

// ---------------------------------------------------------------------------------------------
// The lock step walk, setting keyed sub trees aside, needs an open node only where one is open.
// ---------------------------------------------------------------------------------------------

/// Adding an item of the new dom other than a node end needs an open node only where one is
/// open, and leaves as many nodes open as before.
proof fn lemma_add_item_patches<M, S>(m: DiffModel<M, S>, y: DomItem<M>, d: nat)
    requires
        closes_exactly(rest_new(m, Some(y)), d),
        !(y is Up),
        m.defer ==> no_key_refs(rest_new(m, Some(y))),
        attached_at(rest_new(m, Some(y)), d),
        opens_before_use(m.patches),
        patch_nesting(m.patches) == d,
    ensures
        opens_before_use(add_item(m, y).0.patches),
        patch_nesting(add_item(m, y).0.patches) == d,
{
    let rn = rest_new(m, Some(y));
    assert(rn =~= seq![y] + m.new);
    assert(rn[0] == y);
    assert(rn.take(0) =~= Seq::<DomItem<M>>::empty());
    lemma_closes_split(seq![y], m.new, d);
    lemma_nesting_single(y);
    if m.defer {
        lemma_no_key_refs_split(seq![y], m.new);
    }
    let p = create_patch::<M, S>(y);
    assert(patch_depth_change(p) == depth_change(y));
    if is_keyed(y) && m.defer {
        lemma_defer_add_patches(m, y, None, d + 1);
    } else if opens_node(y) {
        lemma_push_open_ok(m.patches, p, true);
        lemma_add_sub_tree_patches(m.emit(p), d + 1);
    } else {
        if y is Attr || y is Event || y is UnsafeInnerHtml {
            assert(d + nesting(rn.take(0)) > 0);
        }
        lemma_push_open_ok(m.patches, p, true);
    }
}

/// Removing an item of the old dom other than a node end needs an open node only where one is
/// open, and leaves as many nodes open as before.
proof fn lemma_remove_item_patches<M, S>(m: DiffModel<M, S>, x: DomItem<M>, d: nat)
    requires
        !(x is Up),
        attached_at(rest_old(m, Some(x)), d),
        texts_inside_at(rest_old(m, Some(x)), d),
        opens_before_use(m.patches),
        patch_nesting(m.patches) == d,
    ensures
        opens_before_use(remove_item(m, x).0.patches),
        patch_nesting(remove_item(m, x).0.patches) == d,
{
    let ro = rest_old(m, Some(x));
    assert(ro[0] == x);
    assert(ro.take(0) =~= Seq::<DomItem<M>>::empty());
    if x is Attr || x is Event || x is UnsafeInnerHtml || x is Text {
        assert(d + nesting(ro.take(0)) > 0);
    }
    if is_keyed(x) && m.defer {
        lemma_defer_remove_patches(m, x, None);
    } else if opens_node(x) {
        let (m1, w) = m.take_sto();
        let p = removal_patch::<M, S>(x, w);
        lemma_push_open_ok(m1.patches, p, true);
        lemma_remove_sub_tree_patches(m1.emit(p));
    } else {
        match x {
            DomItem::UnsafeInnerHtml(_) => {
                lemma_push_open_ok(m.patches, Patch::<M, S>::UnsetInnerHtml, true);
            },
            DomItem::Event { trigger, .. } => {
                let (m1, w) = m.take_sto();
                lemma_push_open_ok(m1.patches, Patch::<M, S>::RemoveListener { trigger, take: w }, true);
            },
            DomItem::Attr { name, .. } => {
                lemma_push_open_ok(m.patches, Patch::<M, S>::RemoveAttribute(name), true);
            },
            _ => {},
        }
    }
}

/// The conditions under which the lock step walk, setting keyed sub trees aside, needs an open
/// node only where one is open: both walks at the same depth `d`, keeping attributes, inner
/// html, event handlers (and, on the old side, text nodes) inside open nodes, with `d` nodes
/// left open by the patches so far.
pub open spec fn keyed_walk_open_ok<M, S>(
    m: DiffModel<M, S>,
    o: Option<DomItem<M>>,
    n: Option<DomItem<M>>,
    d: nat,
) -> bool {
    &&& closes_exactly(rest_old(m, o), d)
    &&& closes_exactly(rest_new(m, n), d)
    &&& o is None ==> m.old.len() == 0
    &&& n is None ==> m.new.len() == 0
    &&& attached_at(rest_old(m, o), d)
    &&& attached_at(rest_new(m, n), d)
    &&& texts_inside_at(rest_old(m, o), d)
    &&& m.defer ==> no_key_refs(rest_new(m, n))
    &&& opens_before_use(m.patches)
    &&& patch_nesting(m.patches) == d
}

#[verifier::spinoff_prover]
#[verifier::rlimit(100)]
proof fn lemma_step_open_keyed<M: PartialEq, S>(
    m: DiffModel<M, S>,
    o: Option<DomItem<M>>,
    n: Option<DomItem<M>>,
    d: nat,
) -> (d2: nat)
    requires
        keyed_walk_open_ok(m, o, n, d),
        o is Some || n is Some,
    ensures
        ({
            let (m2, o2, n2) = walk_step(m, o, n);
            &&& keyed_walk_open_ok(m2, o2, n2, d2)
            &&& walk_measure(m2, o2, n2) < walk_measure(m, o, n)
        }),
{
    let (m2, o2, n2) = walk_step(m, o, n);
    match (o, n) {
        (None, Some(y)) => {
            if y is Up {
                lemma_closes_first_up(rest_new(m, n), d);
                assert(nesting(Seq::<DomItem<M>>::empty()) == 0);
            }
            let c = lemma_add_item_accounts(m, y, d);
            lemma_add_item_patches(m, y, d);
            lemma_inside_prefix(c, rest_new(m2, n2), d);
            lemma_inside_split(c, rest_new(m2, n2), d);
            if m.defer {
                lemma_no_key_refs_split(c, rest_new(m2, n2));
            }
            d
        },
        (Some(x), None) => {
            if x is Up {
                lemma_closes_first_up(rest_old(m, o), d);
                assert(nesting(Seq::<DomItem<M>>::empty()) == 0);
            }
            let c = lemma_remove_item_shape(m, x, d);
            lemma_remove_item_patches(m, x, d);
            lemma_inside_split(c, rest_old(m2, o2), d);
            assert(rest_new(m2, n2) == rest_new(m, n));
            d
        },
        (Some(x), Some(y)) => {
            assert(walk_step(m, o, n) == compare(m, x, y));
            assert(rest_old(m, o)[0] == x);
            assert(rest_new(m, n)[0] == y);
            assert(rest_old(m, o).take(0) =~= Seq::<DomItem<M>>::empty());
            assert(rest_new(m, n).take(0) =~= Seq::<DomItem<M>>::empty());
            lemma_nesting_single(x);
            lemma_nesting_single(y);
            assert(rest_old(m, o) =~= seq![x] + m.old);
            assert(rest_new(m, n) =~= seq![y] + m.new);
            match match_of(x, y) {
                Match::Differ => {
                    let (m1, on) = remove_item(m, x);
                    if x is Up {
                        assert(!(y is Up));
                        let c = lemma_add_item_accounts(m, y, d);
                        lemma_add_item_patches(m, y, d);
                        lemma_inside_split(c, rest_new(m2, n2), d);
                        if m.defer {
                            lemma_no_key_refs_split(c, rest_new(m2, n2));
                        }
                    } else {
                        let co = lemma_remove_item_shape(m, x, d);
                        lemma_remove_item_patches(m, x, d);
                        lemma_inside_split(co, rest_old(m1, on), d);
                        assert(rest_new(m1, n) == rest_new(m, n));
                        if !(y is Up) {
                            let c = lemma_add_item_accounts(m1, y, d);
                            lemma_add_item_patches(m1, y, d);
                            lemma_inside_split(c, rest_new(m2, n2), d);
                            if m.defer {
                                lemma_no_key_refs_split(c, rest_new(m2, n2));
                            }
                        }
                    }
                    d
                },
                _ => {
                    assert(rest_old(m2, o2) =~= m.old);
                    assert(rest_new(m2, n2) =~= m.new);
                    lemma_closes_split(seq![x], m.old, d);
                    lemma_closes_split(seq![y], m.new, d);
                    lemma_inside_split(seq![x], m.old, d);
                    lemma_inside_split(seq![y], m.new, d);
                    if m.defer {
                        lemma_no_key_refs_split(seq![y], m.new);
                    }
                    if y is Up {
                        lemma_closes_first_up(rest_new(m, n), d);
                    }
                    let (m1, w) = m.take_sto();
                    match (x, y) {
                        (DomItem::Attr { name: on, .. }, DomItem::Attr { name: nn, value: nv }) => {
                            let a = Patch::<M, S>::RemoveAttribute(on);
                            let b = Patch::<M, S>::SetAttribute { name: nn, value: nv };
                            lemma_push_open_ok(m.patches, b, true);
                            lemma_push_open_ok(m.patches, a, true);
                            lemma_push_open_ok(m.patches.push(a), b, true);
                        },
                        (DomItem::UnsafeInnerHtml(_), DomItem::UnsafeInnerHtml(nh)) => {
                            lemma_push_open_ok(m.patches, Patch::<M, S>::SetInnerHtml(nh), true);
                        },
                        (DomItem::Event { trigger: ot, .. }, DomItem::Event { trigger: nt, handler: nh }) => {
                            let a = Patch::<M, S>::RemoveListener { trigger: ot, take: w };
                            let b = Patch::<M, S>::AddListener { trigger: nt, handler: nh };
                            lemma_push_open_ok(m.patches, a, true);
                            lemma_push_open_ok(m.patches.push(a), b, true);
                            lemma_push_open_ok(m.patches, Patch::<M, S>::CopyListener(w), true);
                        },
                        _ => {
                            lemma_push_open_ok(m.patches, m2.patches.last(), true);
                            assert(m2.patches == m.patches.push(m2.patches.last()));
                        },
                    }
                    if y is Up {
                        (d - 1) as nat
                    } else if opens_node(y) {
                        d + 1
                    } else {
                        d
                    }
                },
            }
        },
        (None, None) => d,
    }
}

/// The lock step walk, setting keyed sub trees aside, needs an open node only where one is
/// open, and leaves none open.
proof fn lemma_walk_open_keyed<M: PartialEq, S>(
    m: DiffModel<M, S>,
    o: Option<DomItem<M>>,
    n: Option<DomItem<M>>,
    d: nat,
)
    requires
        keyed_walk_open_ok(m, o, n, d),
    ensures
        opens_before_use(walk(m, o, n).patches),
        patch_nesting(walk(m, o, n).patches) == 0,
    decreases walk_measure(m, o, n),
{
    if o is None && n is None {
        assert(nesting(Seq::<DomItem<M>>::empty()) == 0);
    } else {
        let d2 = lemma_step_open_keyed(m, o, n, d);
        let (m2, o2, n2) = walk_step(m, o, n);
        lemma_walk_open_keyed(m2, o2, n2, d2);
    }
}

// ---------------------------------------------------------------------------------------------
// Every patch list of the diff opens and closes nodes in balance, so that its plan succeeds.
// ---------------------------------------------------------------------------------------------

proof fn lemma_patch_nesting_concat<M, S>(a: Seq<Patch<M, S>>, b: Seq<Patch<M, S>>)
    ensures
        patch_nesting(a + b) == patch_nesting(a) + patch_nesting(b),
    decreases b.len(),
{
    if b.len() == 0 {
        assert(a + b =~= a);
    } else {
        lemma_patch_nesting_concat(a, b.drop_last());
        assert((a + b).drop_last() =~= a + b.drop_last());
        assert((a + b).last() == b.last());
    }
}

/// Two balanced lists, one after the other, are balanced.
proof fn lemma_balanced_concat<M, S>(a: Seq<Patch<M, S>>, b: Seq<Patch<M, S>>)
    requires
        balanced_with_refs(a),
        balanced_with_refs(b),
    ensures
        balanced_with_refs(a + b),
{
    lemma_patch_nesting_concat(a, b);
    let ab = a + b;
    assert forall|k: int|
        0 <= k < ab.len() && (works_on_node(#[trigger] ab[k]) || ab[k] is Up) implies patch_nesting(
        ab.take(k),
    ) > 0 by {
        if k < a.len() {
            assert(ab.take(k) =~= a.take(k));
            assert(ab[k] == a[k]);
        } else {
            let j = k - a.len();
            assert(ab.take(k) =~= a + b.take(j));
            lemma_patch_nesting_concat(a, b.take(j));
            assert(ab[k] == b[j]);
        }
    }
}

/// A diff that sets nothing aside, between two well formed walks whose attributes, inner html
/// and event handlers (and, in the old walk, text nodes) stand inside nodes, gives a balanced
/// list.
proof fn lemma_run_plain_balanced<M: PartialEq, S>(
    old: Seq<DomItem<M>>,
    new: Seq<DomItem<M>>,
    sto: Seq<S>,
)
    requires
        well_formed(old),
        well_formed(new),
        attached(old),
        attached(new),
        texts_inside(old),
    ensures
        balanced_with_refs(run(old, new, sto, false).patches),
{
    let (m1, o) = start(old, new, sto, false).pop_old();
    let (m2, n) = m1.pop_new();
    assert(rest_old(m2, o) =~= old);
    assert(rest_new(m2, n) =~= new);
    assert(patch_nesting(Seq::<Patch<M, S>>::empty()) == 0);
    lemma_walk_open_ok(m2, o, n, 0, true);
}

/// The empty walk is a set aside sub tree.
proof fn lemma_empty_sub_tree<M>()
    ensures
        well_formed(Seq::<DomItem<M>>::empty()),
        attached(Seq::<DomItem<M>>::empty()),
        texts_inside(Seq::<DomItem<M>>::empty()),
{
    let z = Seq::<DomItem<M>>::empty();
    assert forall|k: int| 0 <= k <= z.len() implies #[trigger] nesting(z.take(k)) >= 0 by {
        assert(z.take(k) =~= z);
    }
}

/// What a set aside sub tree is.
proof fn lemma_sub_tree_parts<M>(s: Seq<DomItem<M>>)
    requires
        sub_tree_ok(s),
    ensures
        well_formed(s),
        attached(s),
        texts_inside(s),
{
    reveal(sub_tree_ok);
}

/// Some position of `keys` holds `k`, and then one is first.
proof fn lemma_first_position(keys: Seq<u64>, k: u64, i: int)
    requires
        0 <= i < keys.len(),
        keys[i] == k,
    ensures
        exists|a: int| 0 <= a < keys.len() && keys[a] == k && forall|j: int| 0 <= j < a ==> keys[j] != k,
    decreases i,
{
    if exists|j: int| 0 <= j < i && keys[j] == k {
        let j = choose|j: int| 0 <= j < i && keys[j] == k;
        lemma_first_position(keys, k, j);
    } else {
        assert(forall|j: int| 0 <= j < i ==> keys[j] != k);
    }
}

proof fn lemma_first_index_found(keys: Seq<u64>, k: u64)
    ensures
        first_index(keys, k) matches Some(j) ==> 0 <= j < keys.len() && keys[j] == k,
{
    if exists|i: int| 0 <= i < keys.len() && keys[i] == k {
        let i = choose|i: int| 0 <= i < keys.len() && keys[i] == k;
        lemma_first_position(keys, k, i);
    }
}

#[verifier::spinoff_prover]
#[verifier::rlimit(100)]
proof fn lemma_finish_old_balanced<M: PartialEq, S>(
    patches: Seq<Patch<M, S>>,
    keyed: Map<u64, Seq<Patch<M, S>>>,
    od: Seq<(u64, Seq<DomItem<M>>, Seq<S>)>,
    nd: Seq<(u64, Seq<DomItem<M>>)>,
)
    requires
        balanced_with_refs(patches),
        lists_balanced(keyed),
        keyed.dom().finite(),
        old_entries_from(od, 0),
        new_entries_from(nd, 0),
    ensures
        ({
            let (p2, k2, nd2) = finish_old(patches, keyed, od, nd);
            &&& balanced_with_refs(p2)
            &&& lists_balanced(k2)
            &&& k2.dom().finite()
            &&& new_entries_from(nd2, 0)
        }),
    decreases od.len(),
{
    if od.len() > 0 {
        let e = od[0];
        assert(sub_tree_ok(od[0].1));
        assert(old_entries_from(od.drop_first(), 0)) by {
            assert forall|j: int| 0 <= j < od.drop_first().len() implies sub_tree_ok(
                #[trigger] od.drop_first()[j].1,
            ) by {
                assert(od.drop_first()[j] == od[j + 1]);
            }
        }
        lemma_first_index_found(new_keys(nd), e.0);
        match first_index(new_keys(nd), e.0) {
            Some(j) => {
                assert(sub_tree_ok(nd[j].1));
                lemma_sub_tree_parts(e.1);
                lemma_sub_tree_parts(nd[j].1);
                lemma_run_plain_balanced(e.1, nd[j].1, e.2);
                let k1 = keyed.insert(e.0, run(e.1, nd[j].1, e.2, false).patches);
                let n1 = nd.remove(j);
                assert(lists_balanced(k1)) by {
                    assert forall|k: u64| #[trigger] k1.contains_key(k) implies balanced_with_refs(
                        k1[k],
                    ) by {
                        if k != e.0 {
                            assert(keyed.contains_key(k));
                        }
                    }
                }
                assert(new_entries_from(n1, 0)) by {
                    assert forall|i: int| 0 <= i < n1.len() implies sub_tree_ok(#[trigger] n1[i].1) by {
                        if i < j {
                            assert(n1[i] == nd[i]);
                        } else {
                            assert(n1[i] == nd[i + 1]);
                        }
                    }
                }
                lemma_finish_old_balanced(patches, k1, od.drop_first(), n1);
            },
            None => {
                lemma_sub_tree_parts(e.1);
                lemma_empty_sub_tree::<M>();
                lemma_run_plain_balanced(e.1, seq![], e.2);
                lemma_balanced_concat(patches, run(e.1, seq![], e.2, false).patches);
                lemma_finish_old_balanced(
                    patches + run(e.1, seq![], e.2, false).patches,
                    keyed,
                    od.drop_first(),
                    nd,
                );
            },
        }
    }
}

proof fn lemma_finish_new_balanced<M: PartialEq, S>(
    keyed: Map<u64, Seq<Patch<M, S>>>,
    nd: Seq<(u64, Seq<DomItem<M>>)>,
)
    requires
        lists_balanced(keyed),
        keyed.dom().finite(),
        new_entries_from(nd, 0),
    ensures
        lists_balanced(finish_new(keyed, nd)),
        finish_new(keyed, nd).dom().finite(),
    decreases nd.len(),
{
    if nd.len() > 0 {
        let e = nd[0];
        assert(sub_tree_ok(nd[0].1));
        lemma_sub_tree_parts(e.1);
        lemma_empty_sub_tree::<M>();
        lemma_run_plain_balanced::<M, S>(seq![], e.1, seq![]);
        let k1 = keyed.insert(e.0, run(seq![], e.1, seq![], false).patches);
        assert(lists_balanced(k1)) by {
            assert forall|k: u64| #[trigger] k1.contains_key(k) implies balanced_with_refs(k1[k]) by {
                if k != e.0 {
                    assert(keyed.contains_key(k));
                }
            }
        }
        assert(new_entries_from(nd.drop_first(), 0)) by {
            assert forall|i: int| 0 <= i < nd.drop_first().len() implies sub_tree_ok(
                #[trigger] nd.drop_first()[i].1,
            ) by {
                assert(nd.drop_first()[i] == nd[i + 1]);
            }
        }
        lemma_finish_new_balanced(k1, nd.drop_first());
    }
}

/// Diffing two well formed walks with keys, whose attributes, inner html and event handlers
/// (and, in the old walk, text nodes) stand inside nodes, and whose new walk refers to no keyed
/// sub tree, gives balanced lists, the top level one and every keyed one: applying one never
/// lacks an open node and leaves none open (a reference to a keyed list stands for the list).
pub proof fn law_diff_lists_balanced_with_keys<M: PartialEq, S>(
    old: Seq<DomItem<M>>,
    new: Seq<DomItem<M>>,
    sto: Seq<S>,
)
    requires
        well_formed(old),
        well_formed(new),
        attached(old),
        attached(new),
        texts_inside(old),
        no_key_refs(new),
    ensures
        balanced_with_refs(diff_result(old, new, sto).0),
        lists_balanced(diff_result(old, new, sto).1),
        diff_result(old, new, sto).1.dom().finite(),
{
    let (m1, o) = start(old, new, sto, true).pop_old();
    let (m2, n) = m1.pop_new();
    assert(rest_old(m2, o) =~= old);
    assert(rest_new(m2, n) =~= new);
    assert(patch_nesting(Seq::<Patch<M, S>>::empty()) == 0);
    lemma_walk_open_keyed(m2, o, n, 0);
    lemma_walk_accounts(m2, o, n, 0);
    let m = run(old, new, sto, true);
    let e = Map::<u64, Seq<Patch<M, S>>>::empty();
    assert(lists_balanced(e));
    assert(e.dom() =~= Set::<u64>::empty());
    lemma_finish_old_balanced(m.patches, e, m.old_def, m.new_def);
    let (p, k, nd1) = finish_old(m.patches, e, m.old_def, m.new_def);
    lemma_finish_new_balanced(k, nd1);
}

/// Re-rendering a virtual dom with keys: the diff between two well formed walks, whose
/// attributes, inner html and event handlers stand inside nodes, whose new walk refers to no
/// keyed sub tree and whose old walk has no text node at the top level, always plans, builds
/// exactly the storage that the next diff, against the new walk, takes, and uses every keyed
/// patch list: each is reached from the top level list, so none refers to itself, directly or
/// through others.
pub proof fn law_render_plans_and_stores_what_next_diff_takes_with_keys<M: PartialEq, S>(
    old: Seq<DomItem<M>>,
    new: Seq<DomItem<M>>,
    sto: Seq<S>,
)
    requires
        well_formed(old),
        well_formed(new),
        attached(old),
        attached(new),
        texts_inside(old),
        no_key_refs(new),
    ensures
        ({
            let (ps, keyed) = diff_result(old, new, sto);
            let planned = plan_list(ps, keyed, keyed.dom().len(), 0);
            &&& planned is Ok
            &&& planned->Ok_0.next == storage_count(new)
            &&& planned->Ok_0.keyed == Map::<u64, Seq<Patch<M, S>>>::empty()
        }),
{
    law_diff_lists_balanced_with_keys(old, new, sto);
    law_diff_keyed_refs_resolve_once(old, new, sto);
    law_render_stores_what_next_diff_takes_with_keys(old, new, sto);
    let (ps, keyed) = diff_result(old, new, sto);
    lemma_plan_list_keys(ps, keyed, keyed.dom().len(), 0, true);
}

} // verus!
