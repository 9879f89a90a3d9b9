//! What the diff promises as a whole.
use vstd::prelude::*;
use vstd::std_specs::cmp::PartialEqSpec;
use crate::vdom::{
    DomItem, EventHandler, attached, depth_change, handler_eq, is_keyed, keyless,
    lemma_nesting_concat, lemma_nesting_single, lemma_storage_count_concat, nesting,
    no_key_refs, opens_node, storage_count, uses_storage, well_formed,
};
use crate::patch::{
    Patch, PatchSet, all_noop, is_noop_patch, keyed_view, lemma_patch_store_count_concat,
    no_key_patches, patch_depth_change, patch_handle, patch_handles, patch_nesting, patch_opens,
    patches_open_ok_if,
    patch_store_count, patch_stores, patches_balanced, patches_open_ok, works_on_node,
};
use crate::diff_model::{
    DiffModel, Match, add_item, add_sub_tree, add_sub_tree_loop, compare, create_patch,
    diff_result, finish_new, finish_old, held, is_special_attr, match_of, next_depth,
    remove_item, remove_sub_tree, remove_sub_tree_loop, removal_patch, run, start, walk,
    walk_measure, walk_step,
};

verus! {

/// No attribute of `s` is one the browser may change on its own.
pub open spec fn no_special_attrs<M>(s: Seq<DomItem<M>>) -> bool {
    forall|k: int|
        0 <= k < s.len() ==> match #[trigger] s[k] {
            DomItem::Attr { name, .. } => !is_special_attr(name@),
            _ => true,
        }
}

/// No `Up` of `s` closes a node that was not opened before it.
pub open spec fn no_stray_up<M>(s: Seq<DomItem<M>>) -> bool {
    forall|k: int| 0 <= k <= s.len() ==> #[trigger] nesting(s.take(k)) >= 0
}

/// The creation patches of the items of `s`, in order.
pub open spec fn creations<M, S>(s: Seq<DomItem<M>>) -> Seq<Patch<M, S>> {
    s.map_values(|i: DomItem<M>| create_patch::<M, S>(i))
}

/// The item in hand followed by what is left of the new walk.
pub open spec fn rest_new<M, S>(m: DiffModel<M, S>, item: Option<DomItem<M>>) -> Seq<DomItem<M>> {
    match item {
        Some(i) => seq![i] + m.new,
        None => m.new,
    }
}

proof fn lemma_no_stray_up_suffix<M>(a: Seq<DomItem<M>>, b: Seq<DomItem<M>>)
    requires
        no_stray_up(a + b),
        nesting(a) == 0,
    ensures
        no_stray_up(b),
{
    assert forall|k: int| 0 <= k <= b.len() implies #[trigger] nesting(b.take(k)) >= 0 by {
        assert((a + b).take(a.len() + k) =~= a + b.take(k));
        lemma_nesting_concat(a, b.take(k));
        assert(nesting((a + b).take(a.len() + k)) >= 0);
    }
}

proof fn lemma_no_stray_up_first<M>(s: Seq<DomItem<M>>)
    requires
        no_stray_up(s),
        s.len() > 0,
    ensures
        !(s[0] is Up),
{
    assert(s.take(1) =~= seq![s[0]]);
    lemma_nesting_single(s[0]);
    assert(nesting(s.take(1)) >= 0);
}

pub(crate) proof fn lemma_creations_concat<M, S>(a: Seq<DomItem<M>>, b: Seq<DomItem<M>>)
    ensures
        creations::<M, S>(a + b) == creations::<M, S>(a) + creations::<M, S>(b),
{
    assert(creations::<M, S>(a + b) =~= creations::<M, S>(a) + creations::<M, S>(b));
}

/// Without keys, or without setting keyed sub trees aside, the creation of a sub tree emits one
/// creation patch per item, up to and including the `Up` that closes the sub tree.
pub(crate) proof fn lemma_add_sub_tree_loop_creates<M, S>(
    m: DiffModel<M, S>,
    item: Option<DomItem<M>>,
    depth: nat,
) -> (c: Seq<DomItem<M>>)
    requires
        !m.defer || keyless(rest_new(m, item)),
        item is None ==> m.new.len() == 0,
    ensures
        ({
            let (r, next) = add_sub_tree_loop(m, item, depth);
            &&& rest_new(m, item) == c + rest_new(r, next)
            &&& r.patches == m.patches + creations::<M, S>(c)
            &&& nesting(c) == -(depth + 1) || (rest_new(r, next).len() == 0 && nesting(c) >= -(
            depth as int))
            &&& next is None ==> r.new.len() == 0
            &&& r.old == m.old
            &&& r.sto == m.sto
            &&& r.old_def == m.old_def
            &&& r.new_def == m.new_def
            &&& r.defer == m.defer
        }),
    decreases m.new.len() + held(item),
{
    match item {
        None => {
            assert(rest_new(m, item) =~= Seq::<DomItem<M>>::empty() + rest_new(m, item));
            assert(m.patches + creations::<M, S>(seq![]) =~= m.patches);
            seq![]
        },
        Some(i) => {
            assert(rest_new(m, item)[0] == i);
            assert(!(is_keyed(i) && m.defer));
            if i is Up && depth == 0 {
                let (r, next) = add_sub_tree_loop(m, item, depth);
                assert(rest_new(m, item) =~= seq![i] + rest_new(r, next));
                assert(creations::<M, S>(seq![i]) =~= seq![Patch::<M, S>::Up]);
                lemma_nesting_single(i);
                seq![i]
            } else {
                let m1 = m.emit(create_patch(i));
                let (m2, next) = m1.pop_new();
                assert(rest_new(m2, next) =~= m.new);
                assert(!m2.defer || keyless(rest_new(m2, next))) by {
                    if m.defer {
                        assert forall|k: int| 0 <= k < rest_new(m2, next).len() implies !is_keyed(
                            #[trigger] rest_new(m2, next)[k],
                        ) by {
                            assert(rest_new(m2, next)[k] == rest_new(m, item)[k + 1]);
                        }
                    }
                }
                let c1 = lemma_add_sub_tree_loop_creates(m2, next, next_depth(i, depth));
                let c = seq![i] + c1;
                let (r, nx) = add_sub_tree_loop(m, item, depth);
                assert(add_sub_tree_loop(m, item, depth) == add_sub_tree_loop(
                    m2,
                    next,
                    next_depth(i, depth),
                ));
                assert(rest_new(m, item) =~= c + rest_new(r, nx));
                lemma_creations_concat::<M, S>(seq![i], c1);
                assert(creations::<M, S>(seq![i]) =~= seq![create_patch::<M, S>(i)]);
                assert(r.patches =~= m.patches + creations::<M, S>(c));
                lemma_nesting_concat(seq![i], c1);
                lemma_nesting_single(i);
                c
            }
        },
    }
}

/// With nothing left of the old walk and without keys, the walk creates every item of the new
/// walk, in order.
proof fn lemma_walk_creates<M: PartialEq, S>(m: DiffModel<M, S>, n: Option<DomItem<M>>)
    requires
        m.old.len() == 0,
        keyless(rest_new(m, n)),
        no_stray_up(rest_new(m, n)),
        n is None ==> m.new.len() == 0,
    ensures
        walk(m, None, n).patches == m.patches + creations::<M, S>(rest_new(m, n)),
        walk(m, None, n).old_def == m.old_def,
        walk(m, None, n).new_def == m.new_def,
    decreases m.new.len() + held(n),
{
    match n {
        None => {
            assert(m.patches + creations::<M, S>(rest_new(m, n)) =~= m.patches);
        },
        Some(x) => {
            let whole = rest_new(m, n);
            assert(whole[0] == x);
            lemma_no_stray_up_first(whole);
            assert(!is_keyed(x));
            let (m2, o2, n2) = walk_step(m, None, n);
            assert(o2 is None);
            if opens_node(x) {
                let m1 = m.emit(create_patch(x));
                let (m3, i) = m1.pop_new();
                assert(rest_new(m3, i) =~= m.new);
                assert(keyless(rest_new(m3, i))) by {
                    assert forall|k: int| 0 <= k < rest_new(m3, i).len() implies !is_keyed(
                        #[trigger] rest_new(m3, i)[k],
                    ) by {
                        assert(rest_new(m3, i)[k] == whole[k + 1]);
                    }
                }
                let c = lemma_add_sub_tree_loop_creates(m3, i, 0);
                assert((m2, n2) == add_sub_tree(m1));
                assert(whole =~= (seq![x] + c) + rest_new(m2, n2));
                lemma_nesting_concat(seq![x], c);
                lemma_nesting_single(x);
                if rest_new(m2, n2).len() > 0 {
                    lemma_no_stray_up_suffix(seq![x] + c, rest_new(m2, n2));
                } else {
                    assert(no_stray_up(rest_new(m2, n2))) by {
                        assert forall|k: int| 0 <= k <= rest_new(m2, n2).len() implies #[trigger] nesting(
                            rest_new(m2, n2).take(k),
                        ) >= 0 by {
                            assert(rest_new(m2, n2).take(k) =~= Seq::<DomItem<M>>::empty());
                        }
                    }
                }
                assert(keyless(rest_new(m2, n2))) by {
                    assert forall|k: int| 0 <= k < rest_new(m2, n2).len() implies !is_keyed(
                        #[trigger] rest_new(m2, n2)[k],
                    ) by {
                        assert(rest_new(m2, n2)[k] == whole[(seq![x] + c).len() + k]);
                    }
                }
                assert(walk_measure(m2, o2, n2) < walk_measure(m, None, n));
                lemma_walk_creates(m2, n2);
                lemma_creations_concat::<M, S>(seq![x], c);
                lemma_creations_concat::<M, S>(seq![x] + c, rest_new(m2, n2));
                assert(creations::<M, S>(seq![x]) =~= seq![create_patch::<M, S>(x)]);
                assert(walk(m, None, n).patches =~= m.patches + creations::<M, S>(whole));
            } else {
                assert(rest_new(m2, n2) =~= m.new);
                assert(keyless(rest_new(m2, n2))) by {
                    assert forall|k: int| 0 <= k < rest_new(m2, n2).len() implies !is_keyed(
                        #[trigger] rest_new(m2, n2)[k],
                    ) by {
                        assert(rest_new(m2, n2)[k] == whole[k + 1]);
                    }
                }
                lemma_nesting_single(x);
                assert(whole =~= seq![x] + rest_new(m2, n2));
                lemma_no_stray_up_suffix(seq![x], rest_new(m2, n2));
                lemma_walk_creates(m2, n2);
                lemma_creations_concat::<M, S>(seq![x], rest_new(m2, n2));
                assert(creations::<M, S>(seq![x]) =~= seq![create_patch::<M, S>(x)]);
                assert(walk(m, None, n).patches =~= m.patches + creations::<M, S>(whole));
            }
        },
    }
}

/// Diffing an empty old dom against a new dom without keys, in which no `Up` closes a node that
/// was not opened, creates the new dom: one creation patch for each of its items, in order (an
/// element, text or component is created, an attribute or inner html set, a listener added, a
/// node end marked), and no keyed patch list.
pub proof fn law_diff_from_empty_creates<M: PartialEq, S>(new: Seq<DomItem<M>>, sto: Seq<S>)
    requires
        keyless(new),
        no_stray_up(new),
    ensures
        diff_result(Seq::<DomItem<M>>::empty(), new, sto) == (
            creations::<M, S>(new),
            Map::<u64, Seq<Patch<M, S>>>::empty(),
        ),
{
    let (m1, o) = start(Seq::<DomItem<M>>::empty(), new, sto, true).pop_old();
    let (m2, n) = m1.pop_new();
    assert(rest_new(m2, n) =~= new);
    lemma_walk_creates(m2, n);
    assert(m2.patches + creations::<M, S>(new) =~= creations::<M, S>(new));
}

/// A well formed walk has no stray `Up`.
pub proof fn lemma_well_formed_no_stray_up<M>(s: Seq<DomItem<M>>)
    requires
        well_formed(s),
    ensures
        no_stray_up(s),
{
}

/// Every message equals itself.
pub open spec fn reflexive_messages<M: PartialEq>() -> bool {
    forall|a: M| #[trigger] a.eq_spec(&a)
}

proof fn lemma_handler_eq_refl<M: PartialEq>(h: EventHandler<M>)
    requires
        reflexive_messages::<M>(),
    ensures
        handler_eq(h, h),
{
    match h {
        EventHandler::Msg(x) => {
            assert(x.eq_spec(&x));
        },
        EventHandler::FnMsg(x, _) => {
            assert(x.eq_spec(&x));
        },
        _ => {},
    }
}

/// Walking two identical doms in lock step only carries what exists over.
proof fn lemma_walk_identical<M: PartialEq, S>(m: DiffModel<M, S>, i: Option<DomItem<M>>)
    requires
        m.old == m.new,
        keyless(rest_new(m, i)),
        no_special_attrs(rest_new(m, i)),
        reflexive_messages::<M>(),
        all_noop(m.patches),
        m.old_def.len() == 0,
        m.new_def.len() == 0,
        i is None ==> m.old.len() == 0,
    ensures
        all_noop(walk(m, i, i).patches),
        walk(m, i, i).old_def.len() == 0,
        walk(m, i, i).new_def.len() == 0,
    decreases m.old.len() + held(i),
{
    match i {
        None => {},
        Some(x) => {
            let whole = rest_new(m, i);
            assert(whole[0] == x);
            assert(!is_keyed(x));
            assert(match x {
                DomItem::Attr { name, .. } => !is_special_attr(name@),
                _ => true,
            });
            let (m2, o2, n2) = walk_step(m, i, i);
            match x {
                DomItem::Event { handler, .. } => {
                    lemma_handler_eq_refl(handler);
                },
                DomItem::Component { msg, .. } => {
                    assert(msg.eq_spec(&msg));
                },
                _ => {},
            }
            assert(m2.old == m2.new);
            assert(o2 == n2);
            assert(m2.old == m.old.drop_first() || m.old.len() == 0);
            assert(rest_new(m2, o2) =~= m.old);
            assert(keyless(rest_new(m2, o2))) by {
                assert forall|k: int| 0 <= k < rest_new(m2, o2).len() implies !is_keyed(
                    #[trigger] rest_new(m2, o2)[k],
                ) by {
                    assert(rest_new(m2, o2)[k] == whole[k + 1]);
                }
            }
            assert(no_special_attrs(rest_new(m2, o2))) by {
                assert forall|k: int| 0 <= k < rest_new(m2, o2).len() implies match #[trigger] rest_new(
                    m2,
                    o2,
                )[k] {
                    DomItem::Attr { name, .. } => !is_special_attr(name@),
                    _ => true,
                } by {
                    assert(rest_new(m2, o2)[k] == whole[k + 1]);
                }
            }
            assert(all_noop(m2.patches)) by {
                assert forall|k: int| 0 <= k < m2.patches.len() implies is_noop_patch(
                    #[trigger] m2.patches[k],
                ) by {
                    if k < m.patches.len() {
                        assert(m2.patches[k] == m.patches[k]);
                    }
                }
            }
            assert(walk_measure(m2, o2, n2) < walk_measure(m, i, i));
            lemma_walk_identical(m2, o2);
        },
    }
}

/// Diffing a virtual dom without keys and without attributes the browser may change on its
/// own against itself gives a patch set that leaves the browser's dom as it is, whatever the
/// storage, provided every message equals itself.
pub proof fn law_diff_identical_is_noop<M: PartialEq, S>(
    x: Seq<DomItem<M>>,
    sto: Seq<S>,
    ps: PatchSet<M, S>,
)
    requires
        keyless(x),
        no_special_attrs(x),
        reflexive_messages::<M>(),
        (ps.patches@, ps.keyed_seqs()) == diff_result(x, x, sto),
    ensures
        ps.noop(),
        all_noop(diff_result(x, x, sto).0),
        diff_result(x, x, sto).1 == Map::<u64, Seq<Patch<M, S>>>::empty(),
{
    let (m1, o) = start(x, x, sto, true).pop_old();
    let (m2, n) = m1.pop_new();
    assert(rest_new(m2, o) =~= x);
    lemma_walk_identical(m2, o);
    let m = run(x, x, sto, true);
    assert(m.old_def =~= Seq::<(u64, Seq<DomItem<M>>, Seq<S>)>::empty());
    assert(m.new_def =~= Seq::<(u64, Seq<DomItem<M>>)>::empty());
    assert(ps.keyed@.dom() =~= Set::<u64>::empty()) by {
        assert forall|k: u64| !ps.keyed@.contains_key(k) by {
            if ps.keyed@.contains_key(k) {
                assert(keyed_view(ps.keyed@).contains_key(k));
            }
        }
    }
}


/// The patches that carry the walk `s` of the old dom, whose storage entries are `sto`, over
/// unchanged: each node and listener is copied from its entry, each node end marked, a
/// reference to a keyed sub tree kept; attributes and inner html need no patch.
pub open spec fn carry_over<M, S>(s: Seq<DomItem<M>>, sto: Seq<S>) -> Seq<Patch<M, S>>
    decreases s.len(),
{
    if s.len() == 0 {
        seq![]
    } else {
        let here: Seq<Patch<M, S>> = match s[0] {
            DomItem::Element { .. } => seq![Patch::CopyElement(sto[0])],
            DomItem::Text(_) => seq![Patch::CopyText(sto[0])],
            DomItem::Component { .. } => seq![Patch::CopyComponent(sto[0])],
            DomItem::Event { .. } => seq![Patch::CopyListener(sto[0])],
            DomItem::Up => seq![Patch::Up],
            DomItem::Key(k) => seq![Patch::ReferenceKey(k)],
            _ => seq![],
        };
        here + carry_over(
            s.drop_first(),
            if uses_storage(s[0]) {
                sto.drop_first()
            } else {
                sto
            },
        )
    }
}

/// Walking two identical doms in lock step carries each item over from its storage entry.
#[verifier::spinoff_prover]
#[verifier::rlimit(40)]
proof fn lemma_walk_identical_carries<M: PartialEq, S>(m: DiffModel<M, S>, i: Option<DomItem<M>>)
    requires
        m.old == m.new,
        keyless(rest_new(m, i)),
        no_special_attrs(rest_new(m, i)),
        reflexive_messages::<M>(),
        i is None ==> m.old.len() == 0,
        m.sto.len() >= storage_count(rest_new(m, i)),
    ensures
        walk(m, i, i).patches == m.patches + carry_over(rest_new(m, i), m.sto),
    decreases m.old.len() + held(i),
{
    match i {
        None => {
            assert(rest_new(m, i) =~= Seq::<DomItem<M>>::empty());
            assert(m.patches + carry_over(Seq::<DomItem<M>>::empty(), m.sto) =~= m.patches);
        },
        Some(x) => {
            let whole = rest_new(m, i);
            assert(whole[0] == x);
            assert(whole =~= seq![x] + m.old);
            assert(whole.drop_first() =~= m.old);
            lemma_storage_count_concat(seq![x], m.old);
            lemma_storage_count_single(x);
            assert(!is_keyed(x));
            assert(match x {
                DomItem::Attr { name, .. } => !is_special_attr(name@),
                _ => true,
            });
            let (m2, o2, n2) = walk_step(m, i, i);
            match x {
                DomItem::Event { handler, .. } => {
                    lemma_handler_eq_refl(handler);
                },
                DomItem::Component { msg, .. } => {
                    assert(msg.eq_spec(&msg));
                },
                _ => {},
            }
            assert(m2.old == m2.new);
            assert(o2 == n2);
            assert(rest_new(m2, o2) =~= m.old);
            assert(keyless(rest_new(m2, o2))) by {
                assert forall|k: int| 0 <= k < rest_new(m2, o2).len() implies !is_keyed(
                    #[trigger] rest_new(m2, o2)[k],
                ) by {
                    assert(rest_new(m2, o2)[k] == whole[k + 1]);
                }
            }
            assert(no_special_attrs(rest_new(m2, o2))) by {
                assert forall|k: int| 0 <= k < rest_new(m2, o2).len() implies match #[trigger] rest_new(
                    m2,
                    o2,
                )[k] {
                    DomItem::Attr { name, .. } => !is_special_attr(name@),
                    _ => true,
                } by {
                    assert(rest_new(m2, o2)[k] == whole[k + 1]);
                }
            }
            let sto1 = if uses_storage(x) {
                m.sto.drop_first()
            } else {
                m.sto
            };
            assert(m2.sto == sto1);
            let here = carry_over(whole, m.sto).take(
                carry_over(whole, m.sto).len() - carry_over(m.old, sto1).len(),
            );
            assert(m2.patches =~= m.patches + here);
            assert(walk_measure(m2, o2, n2) < walk_measure(m, i, i));
            lemma_walk_identical_carries(m2, o2);
            assert(walk(m, i, i).patches =~= m.patches + carry_over(whole, m.sto));
        },
    }
}

/// Diffing a virtual dom without keys and without attributes the browser may change on its
/// own against itself, given (at least) its storage, carries it over: one patch per storage
/// entry, in order, copying that entry's node or listener or marking that node end (and a
/// reference to a keyed sub tree kept as it is), provided every message equals itself.
pub proof fn law_diff_identical_carries_over<M: PartialEq, S>(x: Seq<DomItem<M>>, sto: Seq<S>)
    requires
        keyless(x),
        no_special_attrs(x),
        reflexive_messages::<M>(),
        sto.len() >= storage_count(x),
    ensures
        diff_result(x, x, sto).0 == carry_over(x, sto),
        diff_result(x, x, sto).1 == Map::<u64, Seq<Patch<M, S>>>::empty(),
{
    let (m1, o) = start(x, x, sto, true).pop_old();
    let (m2, n) = m1.pop_new();
    assert(rest_new(m2, o) =~= x);
    lemma_walk_identical(m2, o);
    lemma_walk_identical_carries(m2, o);
    let m = run(x, x, sto, true);
    assert(m.patches =~= carry_over(x, sto));
    assert(m.old_def =~= Seq::<(u64, Seq<DomItem<M>>, Seq<S>)>::empty());
    assert(m.new_def =~= Seq::<(u64, Seq<DomItem<M>>)>::empty());
}

/// The item in hand followed by what is left of the old walk.
pub open spec fn rest_old<M, S>(m: DiffModel<M, S>, item: Option<DomItem<M>>) -> Seq<DomItem<M>> {
    match item {
        Some(i) => seq![i] + m.old,
        None => m.old,
    }
}

/// What is left of a walk whose walked part is `d` levels deep: it closes exactly those `d`
/// nodes, and at no point more.
pub open spec fn closes_exactly<M>(r: Seq<DomItem<M>>, d: nat) -> bool {
    &&& nesting(r) == -(d as int)
    &&& forall|k: int| 0 <= k <= r.len() ==> #[trigger] nesting(r.take(k)) >= -(d as int)
}

pub(crate) proof fn lemma_closes_split<M>(a: Seq<DomItem<M>>, b: Seq<DomItem<M>>, d: nat)
    requires
        closes_exactly(a + b, d),
    ensures
        nesting(a) >= -(d as int),
        closes_exactly(b, (d + nesting(a)) as nat),
{
    assert((a + b).take(a.len() as int) =~= a);
    assert forall|k: int| 0 <= k <= b.len() implies #[trigger] nesting(b.take(k)) >= -((d + nesting(
        a,
    )) as nat as int) by {
        assert((a + b).take(a.len() + k) =~= a + b.take(k));
        lemma_nesting_concat(a, b.take(k));
    }
    lemma_nesting_concat(a, b);
}

pub(crate) proof fn lemma_closes_first_up<M>(r: Seq<DomItem<M>>, d: nat)
    requires
        closes_exactly(r, d),
        r.len() > 0,
        r[0] is Up,
    ensures
        d >= 1,
{
    assert(r.take(1) =~= seq![r[0]]);
    lemma_nesting_single(r[0]);
    assert(nesting(r.take(1)) >= -(d as int));
}

pub(crate) proof fn lemma_keyless_split<M>(a: Seq<DomItem<M>>, b: Seq<DomItem<M>>)
    requires
        keyless(a + b),
    ensures
        keyless(a),
        keyless(b),
{
    assert forall|k: int| 0 <= k < a.len() implies !is_keyed(#[trigger] a[k]) by {
        assert((a + b)[k] == a[k]);
    }
    assert forall|k: int| 0 <= k < b.len() implies !is_keyed(#[trigger] b[k]) by {
        assert((a + b)[a.len() + k] == b[k]);
    }
}

/// Keyed sub trees are not set aside, or there are none in `s`.
pub open spec fn undeferred<M>(defer: bool, s: Seq<DomItem<M>>) -> bool {
    !defer || keyless(s)
}

pub(crate) proof fn lemma_undeferred_split<M>(defer: bool, a: Seq<DomItem<M>>, b: Seq<DomItem<M>>)
    requires
        undeferred(defer, a + b),
    ensures
        undeferred(defer, a),
        undeferred(defer, b),
{
    if defer {
        lemma_keyless_split(a, b);
    }
}

pub(crate) proof fn lemma_store_count_push<M, S>(a: Seq<Patch<M, S>>, p: Patch<M, S>)
    ensures
        patch_store_count(a.push(p)) == patch_store_count(a) + if patch_stores(p) {
            1nat
        } else {
            0nat
        },
{
    lemma_patch_store_count_concat(a, seq![p]);
    assert(a + seq![p] =~= a.push(p));
    assert(seq![p].drop_first() =~= Seq::<Patch<M, S>>::empty());
    assert(patch_store_count(Seq::<Patch<M, S>>::empty()) == 0);
    assert(seq![p][0] == p);
}

pub(crate) proof fn lemma_storage_count_single<M>(y: DomItem<M>)
    ensures
        storage_count(seq![y]) == if uses_storage(y) {
            1nat
        } else {
            0nat
        },
{
    assert(seq![y].drop_first() =~= Seq::<DomItem<M>>::empty());
    assert(storage_count(Seq::<DomItem<M>>::empty()) == 0);
    assert(seq![y][0] == y);
}

/// The creation patches of a walk store one entry per item that owns storage.
pub(crate) proof fn lemma_creations_store_count<M, S>(s: Seq<DomItem<M>>)
    ensures
        patch_store_count(creations::<M, S>(s)) == storage_count(s),
    decreases s.len(),
{
    if s.len() > 0 {
        assert(creations::<M, S>(s).drop_first() =~= creations::<M, S>(s.drop_first()));
        lemma_creations_store_count::<M, S>(s.drop_first());
        assert(patch_stores(create_patch::<M, S>(s[0])) == uses_storage(s[0]));
    }
}

/// The patches that remove the walk `s` of the old dom, whose storage entries are `sto`, when
/// `s` starts `depth` levels below the node the dom is applied in: a node at that level is
/// removed with what it holds, and a component nested in it is removed on its own as well, so
/// that it is detached; an attribute, inner html or listener at that level is removed from the
/// node the dom is applied in.
#[verifier::opaque]
pub open spec fn removals<M, S>(s: Seq<DomItem<M>>, sto: Seq<S>, depth: nat) -> Seq<Patch<M, S>>
    decreases s.len(),
{
    if s.len() == 0 {
        seq![]
    } else {
        let i = s[0];
        let here: Seq<Patch<M, S>> = if depth == 0 {
            match i {
                DomItem::Element { .. } | DomItem::Text(_) | DomItem::Component { .. } => seq![
                    removal_patch(i, sto[0]),
                ],
                DomItem::UnsafeInnerHtml(_) => seq![Patch::UnsetInnerHtml],
                DomItem::Event { trigger, .. } => seq![Patch::RemoveListener { trigger, take: sto[0] }],
                DomItem::Attr { name, .. } => seq![Patch::RemoveAttribute(name)],
                _ => seq![],
            }
        } else if i is Component {
            seq![Patch::RemoveComponent(sto[0])]
        } else {
            seq![]
        };
        here + removals(
            s.drop_first(),
            if uses_storage(i) {
                sto.drop_first()
            } else {
                sto
            },
            next_depth(i, depth),
        )
    }
}

/// The depth below the node the dom is applied in after walking `s` from `depth`.
pub open spec fn end_depth<M>(s: Seq<DomItem<M>>, depth: nat) -> nat
    decreases s.len(),
{
    if s.len() == 0 {
        depth
    } else {
        end_depth(s.drop_first(), next_depth(s[0], depth))
    }
}

/// Removing two walks one after the other.
proof fn lemma_removals_concat<M, S>(a: Seq<DomItem<M>>, b: Seq<DomItem<M>>, sto: Seq<S>, d: nat)
    requires
        sto.len() >= storage_count(a),
    ensures
        removals(a + b, sto, d) == removals(a, sto, d) + removals(
            b,
            sto.skip(storage_count(a) as int),
            end_depth(a, d),
        ),
    decreases a.len(),
{
    reveal(removals);
    if a.len() == 0 {
        assert(a + b =~= b);
        assert(sto.skip(0) =~= sto);
        assert(removals(a, sto, d) + removals(b, sto, d) =~= removals(b, sto, d));
    } else {
        let i = a[0];
        let sto1 = if uses_storage(i) {
            sto.drop_first()
        } else {
            sto
        };
        assert((a + b).drop_first() =~= a.drop_first() + b);
        assert((a + b)[0] == i);
        lemma_removals_concat(a.drop_first(), b, sto1, next_depth(i, d));
        if uses_storage(i) {
            assert(sto1.skip(storage_count(a.drop_first()) as int) =~= sto.skip(
                storage_count(a) as int,
            ));
        }
        let h = removals(a, sto, d).take(removals(a, sto, d).len() - removals(
            a.drop_first(),
            sto1,
            next_depth(i, d),
        ).len());
        assert(removals(a + b, sto, d) =~= removals(a, sto, d) + removals(
            b,
            sto.skip(storage_count(a) as int),
            end_depth(a, d),
        ));
    }
}

/// Walking a sequence that never closes more than `d` nodes ends `nesting` levels from `d`.
proof fn lemma_end_depth<M>(a: Seq<DomItem<M>>, d: nat)
    requires
        forall|k: int| 0 <= k <= a.len() ==> d + #[trigger] nesting(a.take(k)) >= 0,
    ensures
        end_depth(a, d) == d + nesting(a),
    decreases a.len(),
{
    if a.len() == 0 {
        assert(nesting(a) == 0);
    } else {
        let i = a[0];
        let t = a.drop_first();
        assert(a =~= seq![i] + t);
        lemma_nesting_concat(seq![i], t);
        lemma_nesting_single(i);
        assert(a.take(1) =~= seq![i]);
        assert(d + nesting(a.take(1)) >= 0);
        let d1 = next_depth(i, d);
        assert(d1 == d + depth_change(i));
        assert forall|k: int| 0 <= k <= t.len() implies d1 + #[trigger] nesting(t.take(k)) >= 0 by {
            assert(a.take(k + 1) =~= seq![i] + t.take(k));
            lemma_nesting_concat(seq![i], t.take(k));
            assert(d + nesting(a.take(k + 1)) >= 0);
        }
        lemma_end_depth(t, d1);
    }
}

/// `b` is `a` followed by patches that each remove a component.
pub open spec fn component_tail<M, S>(a: Seq<Patch<M, S>>, b: Seq<Patch<M, S>>) -> bool {
    &&& a.len() <= b.len()
    &&& b.take(a.len() as int) == a
    &&& forall|k: int| a.len() <= k < b.len() ==> #[trigger] b[k] is RemoveComponent
}

/// `b` is `a` followed by patches that remove the old item `x` and what it holds.
pub open spec fn quiet_tail<M, S>(a: Seq<Patch<M, S>>, b: Seq<Patch<M, S>>, x: DomItem<M>) -> bool {
    &&& a.len() <= b.len()
    &&& b.take(a.len() as int) == a
    &&& forall|k: int| a.len() <= k < b.len() ==> quiet_removal(#[trigger] b[k], x)
}

/// Patches that remove an old item keep every patch that needs an open node after one, where
/// the item's own removal needs one only where a node is open.
pub(crate) proof fn lemma_quiet_tail_open_ok<M, S>(
    a: Seq<Patch<M, S>>,
    b: Seq<Patch<M, S>>,
    x: DomItem<M>,
    refs: bool,
)
    requires
        patches_open_ok_if(a, refs),
        quiet_tail(a, b, x),
        x is Text || x is Event || x is Attr || x is UnsafeInnerHtml ==> patch_nesting(a) > 0,
    ensures
        patches_open_ok_if(b, refs),
        patch_nesting(b) == patch_nesting(a),
    decreases b.len(),
{
    if b.len() == a.len() {
        assert(b =~= a);
    } else {
        let b1 = b.drop_last();
        assert(quiet_tail(a, b1, x)) by {
            assert(b1.take(a.len() as int) =~= b.take(a.len() as int));
            assert forall|k: int| a.len() <= k < b1.len() implies quiet_removal(#[trigger] b1[k], x) by {
                assert(b1[k] == b[k]);
            }
        }
        lemma_quiet_tail_open_ok(a, b1, x, refs);
        assert(quiet_removal(b[b.len() - 1], x));
        assert(b1.push(b.last()) =~= b);
        lemma_push_open_ok(b1, b.last(), refs);
    }
}

/// Without keys, skipping a sub tree of the old dom emits only patches that remove the
/// components in it, and goes up to and including the `Up` that closes the sub tree.
#[verifier::spinoff_prover]
#[verifier::rlimit(40)]
proof fn lemma_remove_sub_tree_loop_quiet<M, S>(
    m: DiffModel<M, S>,
    item: Option<DomItem<M>>,
    depth: nat,
) -> (c: Seq<DomItem<M>>)
    requires
        undeferred(m.defer, rest_old(m, item)),
        item is None ==> m.old.len() == 0,
    ensures
        ({
            let (r, next) = remove_sub_tree_loop(m, item, depth);
            &&& rest_old(m, item) == c + rest_old(r, next)
            &&& component_tail(m.patches, r.patches)
            &&& patch_store_count(r.patches) == patch_store_count(m.patches)
            &&& m.sto.len() >= storage_count(rest_old(m, item)) ==> r.patches == m.patches
                + removals(c, m.sto, depth + 1)
            &&& nesting(c) == -(depth + 1) || (rest_old(r, next).len() == 0 && nesting(c) >= -(
            depth as int))
            &&& next is None ==> r.old.len() == 0
            &&& m.sto.len() >= storage_count(rest_old(m, item)) ==> r.sto == m.sto.skip(
                storage_count(c) as int,
            )
            &&& r.new == m.new
            &&& r.old_def == m.old_def
            &&& r.new_def == m.new_def
            &&& r.defer == m.defer
        }),
    decreases m.old.len() + held(item),
{
    assert(m.patches.take(m.patches.len() as int) =~= m.patches);
    match item {
        None => {
            assert(rest_old(m, item) =~= Seq::<DomItem<M>>::empty() + rest_old(m, item));
            assert(m.sto.skip(0) =~= m.sto);
            assert(storage_count(Seq::<DomItem<M>>::empty()) == 0);
            reveal(removals);
            assert(m.patches + removals(Seq::<DomItem<M>>::empty(), m.sto, depth + 1) =~= m.patches);
            seq![]
        },
        Some(i) => {
            assert(rest_old(m, item)[0] == i);
            assert(!(is_keyed(i) && m.defer));
            assert(rest_old(m, item) =~= seq![i] + m.old);
            lemma_storage_count_concat(seq![i], m.old);
            lemma_storage_count_single(i);
            if i is Up && depth == 0 {
                let (r, next) = remove_sub_tree_loop(m, item, depth);
                assert(rest_old(m, item) =~= seq![i] + rest_old(r, next));
                lemma_nesting_single(i);
                assert(m.sto.drop_first() =~= m.sto.skip(1));
                assert(seq![i].drop_first() =~= Seq::<DomItem<M>>::empty());
                reveal(removals);
                assert(removals(Seq::<DomItem<M>>::empty(), m.sto.drop_first(), 0) =~= Seq::<
                    Patch<M, S>,
                >::empty());
                assert(removals(seq![i], m.sto, depth + 1) =~= Seq::<Patch<M, S>>::empty());
                assert(m.patches + removals(seq![i], m.sto, depth + 1) =~= m.patches);
                seq![i]
            } else {
                let m2 = if i is Component {
                    let (m1, w) = m.take_sto();
                    lemma_store_count_push(m.patches, Patch::<M, S>::RemoveComponent(w));
                    m1.emit(Patch::RemoveComponent(w))
                } else if uses_storage(i) {
                    m.take_sto().0
                } else {
                    m
                };
                let (m3, next) = m2.pop_old();
                assert(rest_old(m3, next) =~= m.old);
                lemma_undeferred_split(m.defer, seq![i], m.old);
                let c1 = lemma_remove_sub_tree_loop_quiet(m3, next, next_depth(i, depth));
                let (r0, n0) = remove_sub_tree_loop(m3, next, next_depth(i, depth));
                assert(component_tail(m.patches, r0.patches)) by {
                    assert(r0.patches.take(m3.patches.len() as int).take(m.patches.len() as int)
                        =~= r0.patches.take(m.patches.len() as int));
                    assert(m3.patches.take(m.patches.len() as int) =~= m.patches);
                    assert forall|k: int| m.patches.len() <= k < r0.patches.len() implies #[trigger] r0.patches[k] is RemoveComponent by {
                        if k < m3.patches.len() {
                            assert(r0.patches.take(m3.patches.len() as int)[k] == r0.patches[k]);
                        }
                    }
                }
                let c = seq![i] + c1;
                let (r, nx) = remove_sub_tree_loop(m, item, depth);
                assert(remove_sub_tree_loop(m, item, depth) == remove_sub_tree_loop(
                    m3,
                    next,
                    next_depth(i, depth),
                ));
                assert(rest_old(m, item) =~= c + rest_old(r, nx));
                lemma_nesting_concat(seq![i], c1);
                lemma_nesting_single(i);
                lemma_storage_count_concat(seq![i], c1);
                lemma_storage_count_concat(c1, rest_old(r, nx));
                if m.sto.len() >= storage_count(rest_old(m, item)) {
                    if uses_storage(i) {
                        assert(m3.sto =~= m.sto.skip(1));
                        assert(m3.sto.skip(storage_count(c1) as int) =~= m.sto.skip(
                            storage_count(c) as int,
                        ));
                    } else {
                        assert(m3.sto == m.sto);
                    }
                    assert(c.drop_first() =~= c1);
                    assert(c[0] == i);
                    assert(next_depth(i, depth + 1) == next_depth(i, depth) + 1);
                    let here: Seq<Patch<M, S>> = if i is Component {
                        seq![Patch::RemoveComponent(m.sto[0])]
                    } else {
                        seq![]
                    };
                    assert(m3.patches =~= m.patches + here);
                    reveal(removals);
                    assert(removals(c, m.sto, depth + 1) =~= here + removals(
                        c1,
                        m3.sto,
                        next_depth(i, depth) + 1,
                    ));
                    assert(r.patches =~= m.patches + removals(c, m.sto, depth + 1));
                }
                c
            }
        },
    }
}

/// A patch that removes the old item `x`: it opens and closes no node, refers to no keyed
/// list, and works on the innermost open node only to remove a text node, a listener, an
/// attribute or inner html.
pub open spec fn quiet_removal<M, S>(p: Patch<M, S>, x: DomItem<M>) -> bool {
    &&& !patch_opens(p)
    &&& !(p is Up)
    &&& !(p is ReferenceKey)
    &&& works_on_node(p) ==> (x is Text || x is Event || x is Attr || x is UnsafeInnerHtml)
}

/// Without keys, removing an item of the old dom other than a node end emits no storing patch
/// and skips exactly the item, with its sub tree when it is a node.
#[verifier::spinoff_prover]
#[verifier::rlimit(80)]
proof fn lemma_remove_item_quiet<M, S>(m: DiffModel<M, S>, x: DomItem<M>, d: nat) -> (c: Seq<
    DomItem<M>,
>)
    requires
        undeferred(m.defer, rest_old(m, Some(x))),
        closes_exactly(rest_old(m, Some(x)), d),
        !(x is Up),
    ensures
        ({
            let (r, next) = remove_item(m, x);
            &&& rest_old(m, Some(x)) == c + rest_old(r, next)
            &&& c.len() >= 1
            &&& nesting(c) == 0
            &&& patch_store_count(r.patches) == patch_store_count(m.patches)
            &&& quiet_tail(m.patches, r.patches, x)
            &&& uses_storage(x) ==> storage_count(c) >= 1
            &&& next is None ==> r.old.len() == 0
            &&& m.sto.len() >= storage_count(rest_old(m, Some(x))) ==> r.sto == m.sto.skip(
                storage_count(c) as int,
            )
            &&& r.new == m.new
            &&& r.old_def == m.old_def
            &&& r.new_def == m.new_def
            &&& r.defer == m.defer
        }),
{
    assert(rest_old(m, Some(x))[0] == x);
    assert(!(is_keyed(x) && m.defer));
    assert(m.patches.take(m.patches.len() as int) =~= m.patches);
    let (r, next) = remove_item(m, x);
    lemma_nesting_single(x);
    if opens_node(x) {
        let (m1, w) = m.take_sto();
        let p = removal_patch::<M, S>(x, w);
        let m2 = m1.emit(p);
        lemma_store_count_push(m.patches, p);
        let (m3, first) = m2.pop_old();
        assert(rest_old(m3, first) =~= m.old);
        lemma_undeferred_split(m.defer, seq![x], m.old);
        let c1 = lemma_remove_sub_tree_loop_quiet(m3, first, 0);
        assert((r, next) == remove_sub_tree(m2));
        let c = seq![x] + c1;
        assert(rest_old(m, Some(x)) =~= c + rest_old(r, next));
        lemma_storage_count_concat(seq![x], m.old);
        lemma_storage_count_concat(seq![x], c1);
        lemma_storage_count_concat(c1, rest_old(r, next));
        lemma_storage_count_single(x);
        if m.sto.len() >= storage_count(rest_old(m, Some(x))) {
            assert(m3.sto =~= m.sto.skip(1));
            assert(m3.sto.skip(storage_count(c1) as int) =~= m.sto.skip(storage_count(c) as int));
        }
        assert(quiet_tail(m.patches, r.patches, x)) by {
            assert(m2.patches.take(m.patches.len() as int) =~= m.patches);
            assert(r.patches.take(m2.patches.len() as int).take(m.patches.len() as int)
                =~= r.patches.take(m.patches.len() as int));
            assert forall|k: int| m.patches.len() <= k < r.patches.len() implies quiet_removal(#[trigger] r.patches[k], x) by {
                if k < m2.patches.len() {
                    assert(r.patches.take(m2.patches.len() as int)[k] == r.patches[k]);
                    assert(r.patches[k] == p);
                }
            }
        }
        lemma_nesting_concat(seq![x], c1);
        if nesting(c1) != -1 {
            assert(rest_old(r, next).len() == 0);
            assert(rest_old(m, Some(x)) =~= c);
        }
        c
    } else {
        match x {
            DomItem::UnsafeInnerHtml(_) => {
                lemma_store_count_push(m.patches, Patch::<M, S>::UnsetInnerHtml);
            },
            DomItem::Event { trigger, .. } => {
                let (m1, w) = m.take_sto();
                lemma_store_count_push(m.patches, Patch::<M, S>::RemoveListener { trigger, take: w });
            },
            DomItem::Attr { name, .. } => {
                lemma_store_count_push(m.patches, Patch::<M, S>::RemoveAttribute(name));
            },
            _ => {},
        }
        assert(r.patches.take(m.patches.len() as int) =~= m.patches);
        assert(rest_old(m, Some(x)) =~= seq![x] + rest_old(r, next));
        lemma_storage_count_concat(seq![x], m.old);
        lemma_storage_count_single(x);
        assert(m.sto.skip(0) =~= m.sto);
        assert(m.sto.drop_first() =~= m.sto.skip(1));
        seq![x]
    }
}

/// Without keys, removing an item of the old dom other than a node end emits exactly the
/// patches that remove the item, with the components nested in it.
#[verifier::spinoff_prover]
#[verifier::rlimit(60)]
proof fn lemma_remove_item_removes<M, S>(m: DiffModel<M, S>, x: DomItem<M>, d: nat) -> (c: Seq<
    DomItem<M>,
>)
    requires
        undeferred(m.defer, rest_old(m, Some(x))),
        closes_exactly(rest_old(m, Some(x)), d),
        !(x is Up),
        m.sto.len() >= storage_count(rest_old(m, Some(x))),
    ensures
        ({
            let (r, next) = remove_item(m, x);
            &&& rest_old(m, Some(x)) == c + rest_old(r, next)
            &&& c.len() >= 1
            &&& nesting(c) == 0
            &&& next is None ==> r.old.len() == 0
            &&& r.sto == m.sto.skip(storage_count(c) as int)
            &&& r.patches == m.patches + removals(c, m.sto, 0)
            &&& r.new == m.new
            &&& r.defer == m.defer
        }),
{
    let c = lemma_remove_item_quiet(m, x, d);
    reveal(removals);
    let (r, next) = remove_item(m, x);
    assert(rest_old(m, Some(x))[0] == x);
    assert(c[0] == x);
    assert(!(is_keyed(x) && m.defer));
    if opens_node(x) {
        let (m1, w) = m.take_sto();
        let p = removal_patch::<M, S>(x, w);
        let m2 = m1.emit(p);
        let (m3, first) = m2.pop_old();
        assert(rest_old(m3, first) =~= m.old);
        lemma_undeferred_split(m.defer, seq![x], m.old);
        lemma_storage_count_concat(seq![x], m.old);
        lemma_storage_count_single(x);
        let c1 = lemma_remove_sub_tree_loop_quiet(m3, first, 0);
        assert((r, next) == remove_sub_tree(m2));
        assert(rest_old(m, Some(x)) =~= seq![x] + m.old);
        assert(c1 =~= c.drop_first()) by {
            assert(c.len() == 1 + c1.len());
            assert forall|k: int| 0 <= k < c1.len() implies c1[k] == c.drop_first()[k] by {
                assert(rest_old(m, Some(x))[k + 1] == c[k + 1]);
                assert(m.old[k] == c1[k]);
            }
        }
        assert(m3.sto =~= m.sto.drop_first());
        assert(removals(c, m.sto, 0) =~= seq![p] + removals(c1, m3.sto, 1));
        assert(r.patches =~= m.patches + removals(c, m.sto, 0));
    } else {
        assert(c =~= seq![x]) by {
            assert(rest_old(m, Some(x)) =~= seq![x] + m.old);
        }
        assert(seq![x].drop_first() =~= Seq::<DomItem<M>>::empty());
        let sto1 = if uses_storage(x) {
            m.sto.drop_first()
        } else {
            m.sto
        };
        assert(removals(Seq::<DomItem<M>>::empty(), sto1, next_depth(x, 0)) =~= Seq::<
            Patch<M, S>,
        >::empty());
        assert(r.patches =~= m.patches + removals(seq![x], m.sto, 0));
    }
    c
}

/// Without keys, adding an item of the new dom other than a node end creates exactly the item,
/// with its sub tree when it is a node, storing one entry per item that owns storage.
proof fn lemma_add_item_stores<M, S>(m: DiffModel<M, S>, y: DomItem<M>, d: nat) -> (c: Seq<
    DomItem<M>,
>)
    requires
        undeferred(m.defer, rest_new(m, Some(y))),
        closes_exactly(rest_new(m, Some(y)), d),
        !(y is Up),
    ensures
        ({
            let (r, next) = add_item(m, y);
            &&& rest_new(m, Some(y)) == c + rest_new(r, next)
            &&& c.len() >= 1
            &&& nesting(c) == 0
            &&& patch_store_count(r.patches) == patch_store_count(m.patches) + storage_count(c)
            &&& r.patches == m.patches + creations::<M, S>(c)
            &&& next is None ==> r.new.len() == 0
            &&& r.old == m.old
            &&& r.sto == m.sto
            &&& r.old_def == m.old_def
            &&& r.new_def == m.new_def
            &&& r.defer == m.defer
        }),
{
    assert(rest_new(m, Some(y))[0] == y);
    assert(!(is_keyed(y) && m.defer));
    let (r, next) = add_item(m, y);
    lemma_nesting_single(y);
    let p = create_patch::<M, S>(y);
    let m1 = m.emit(p);
    lemma_store_count_push(m.patches, p);
    assert(patch_stores(p) == uses_storage(y));
    lemma_storage_count_single(y);
    if opens_node(y) {
        let (m3, first) = m1.pop_new();
        assert(rest_new(m3, first) =~= m.new);
        lemma_undeferred_split(m.defer, seq![y], m.new);
        let c1 = lemma_add_sub_tree_loop_creates(m3, first, 0);
        assert((r, next) == add_sub_tree(m1));
        let c = seq![y] + c1;
        assert(rest_new(m, Some(y)) =~= c + rest_new(r, next));
        lemma_nesting_concat(seq![y], c1);
        if nesting(c1) != -1 {
            assert(rest_new(r, next).len() == 0);
            assert(rest_new(m, Some(y)) =~= c);
        }
        lemma_creations_store_count::<M, S>(c1);
        lemma_patch_store_count_concat(m1.patches, creations::<M, S>(c1));
        lemma_storage_count_concat(seq![y], c1);
        lemma_creations_concat::<M, S>(seq![y], c1);
        assert(creations::<M, S>(seq![y]) =~= seq![p]);
        assert(r.patches =~= m.patches + creations::<M, S>(c));
        c
    } else {
        assert(rest_new(m, Some(y)) =~= seq![y] + rest_new(r, next));
        assert(creations::<M, S>(seq![y]) =~= seq![p]);
        assert(r.patches =~= m.patches + creations::<M, S>(seq![y]));
        seq![y]
    }
}

/// Without keys, one step of the lock step walk between two walks at the same depth keeps
/// them at the same depth, and what is stored so far plus what the rest of the new walk owns
/// stays the same.
#[verifier::spinoff_prover]
#[verifier::rlimit(40)]
proof fn lemma_step_stores<M: PartialEq, S>(
    m: DiffModel<M, S>,
    o: Option<DomItem<M>>,
    n: Option<DomItem<M>>,
    d: nat,
) -> (d2: nat)
    requires
        undeferred(m.defer, rest_old(m, o)),
        undeferred(m.defer, rest_new(m, n)),
        closes_exactly(rest_old(m, o), d),
        closes_exactly(rest_new(m, n), d),
        o is None ==> m.old.len() == 0,
        n is None ==> m.new.len() == 0,
        o is Some || n is Some,
    ensures
        ({
            let (m2, o2, n2) = walk_step(m, o, n);
            &&& undeferred(m2.defer, rest_old(m2, o2))
            &&& undeferred(m2.defer, rest_new(m2, n2))
            &&& closes_exactly(rest_old(m2, o2), d2)
            &&& closes_exactly(rest_new(m2, n2), d2)
            &&& o2 is None ==> m2.old.len() == 0
            &&& n2 is None ==> m2.new.len() == 0
            &&& rest_old(m2, o2).len() + rest_new(m2, n2).len() < rest_old(m, o).len() + rest_new(
                m,
                n,
            ).len()
            &&& patch_store_count(m2.patches) + storage_count(rest_new(m2, n2)) == patch_store_count(
                m.patches,
            ) + storage_count(rest_new(m, n))
            &&& m2.old_def == m.old_def
            &&& m2.new_def == m.new_def
        }),
{
    let (m2, o2, n2) = walk_step(m, o, n);
    match (o, n) {
        (None, Some(y)) => {
            assert(nesting(Seq::<DomItem<M>>::empty()) == 0);
            if y is Up {
                lemma_closes_first_up(rest_new(m, n), d);
            }
            let c = lemma_add_item_stores(m, y, d);
            lemma_closes_split(c, rest_new(m2, n2), d);
            lemma_undeferred_split(m.defer, c, rest_new(m2, n2));
            lemma_storage_count_concat(c, rest_new(m2, n2));
            d
        },
        (Some(x), None) => {
            assert(nesting(Seq::<DomItem<M>>::empty()) == 0);
            if x is Up {
                lemma_closes_first_up(rest_old(m, o), d);
            }
            let c = lemma_remove_item_quiet(m, x, d);
            lemma_closes_split(c, rest_old(m2, o2), d);
            lemma_undeferred_split(m.defer, c, rest_old(m2, o2));
            d
        },
        (Some(x), Some(y)) => {
            assert(walk_step(m, o, n) == compare(m, x, y));
            assert(rest_old(m, o)[0] == x);
            assert(rest_new(m, n)[0] == y);
            assert(!(is_keyed(x) && m.defer));
            assert(!(is_keyed(y) && m.defer));
            lemma_nesting_single(x);
            lemma_nesting_single(y);
            assert(rest_old(m, o) =~= seq![x] + m.old);
            assert(rest_new(m, n) =~= seq![y] + m.new);
            lemma_storage_count_concat(seq![y], m.new);
            lemma_storage_count_single(y);
            match match_of(x, y) {
                Match::Differ => {
                    let (m1, on) = remove_item(m, x);
                    if x is Up {
                        assert(!(y is Up));
                        let c = lemma_add_item_stores(m, y, d);
                        lemma_closes_split(c, rest_new(m2, n2), d);
                        lemma_undeferred_split(m.defer, c, rest_new(m2, n2));
                        lemma_storage_count_concat(c, rest_new(m2, n2));
                        d
                    } else {
                        let co = lemma_remove_item_quiet(m, x, d);
                        lemma_closes_split(co, rest_old(m1, on), d);
                        lemma_undeferred_split(m.defer, co, rest_old(m1, on));
                        assert(rest_new(m1, n) == rest_new(m, n));
                        if y is Up {
                            assert(m2 == m1);
                        } else {
                            let c = lemma_add_item_stores(m1, y, d);
                            lemma_closes_split(c, rest_new(m2, n2), d);
                            lemma_undeferred_split(m.defer, c, rest_new(m2, n2));
                            lemma_storage_count_concat(c, rest_new(m2, n2));
                        }
                        d
                    }
                },
                _ => {
                    assert(rest_old(m2, o2) =~= m.old);
                    assert(rest_new(m2, n2) =~= m.new);
                    lemma_closes_split(seq![x], m.old, d);
                    lemma_closes_split(seq![y], m.new, d);
                    lemma_undeferred_split(m.defer, seq![x], m.old);
                    lemma_undeferred_split(m.defer, seq![y], m.new);
                    match match_of(x, y) {
                        Match::Attrs => {
                            let m1 = match (x, y) {
                                (DomItem::Attr { name: on, .. }, DomItem::Attr { name: nn, value: nv }) => {
                                    lemma_store_count_push(m.patches, Patch::<M, S>::RemoveAttribute(on));
                                    lemma_store_count_push(m.patches, Patch::<M, S>::SetAttribute { name: nn, value: nv });
                                    lemma_store_count_push(m.patches.push(Patch::<M, S>::RemoveAttribute(on)), Patch::<M, S>::SetAttribute { name: nn, value: nv });
                                },
                                _ => {},
                            };
                        },
                        Match::InnerHtml => {
                            match (x, y) {
                                (DomItem::UnsafeInnerHtml(_), DomItem::UnsafeInnerHtml(nh)) => {
                                    lemma_store_count_push(m.patches, Patch::<M, S>::SetInnerHtml(nh));
                                },
                                _ => {},
                            }
                        },
                        Match::Events => {
                            let (m1, w) = m.take_sto();
                            match (x, y) {
                                (DomItem::Event { trigger: ot, .. }, DomItem::Event { trigger: nt, handler: nh }) => {
                                    lemma_store_count_push(m.patches, Patch::<M, S>::RemoveListener { trigger: ot, take: w });
                                    lemma_store_count_push(m.patches.push(Patch::<M, S>::RemoveListener { trigger: ot, take: w }), Patch::<M, S>::AddListener { trigger: nt, handler: nh });
                                    lemma_store_count_push(m.patches, Patch::<M, S>::CopyListener(w));
                                },
                                _ => {},
                            }
                        },
                        _ => {
                            let (m1, w) = m.take_sto();
                            lemma_store_count_push(m.patches, m2.patches.last());
                            assert(m2.patches == m.patches.push(m2.patches.last()));
                        },
                    }
                    if y is Up {
                        (d - 1) as nat
                    } else if opens_node(y) {
                        d + 1
                    } else {
                        d
                    }
                },
            }
        },
        (None, None) => d,
    }
}


/// Without keys, the lock step walk between two walks at the same depth emits one storing
/// patch per item of the new walk that owns storage.
pub(crate) proof fn lemma_walk_stores<M: PartialEq, S>(
    m: DiffModel<M, S>,
    o: Option<DomItem<M>>,
    n: Option<DomItem<M>>,
    d: nat,
)
    requires
        undeferred(m.defer, rest_old(m, o)),
        undeferred(m.defer, rest_new(m, n)),
        closes_exactly(rest_old(m, o), d),
        closes_exactly(rest_new(m, n), d),
        o is None ==> m.old.len() == 0,
        n is None ==> m.new.len() == 0,
    ensures
        patch_store_count(walk(m, o, n).patches) == patch_store_count(m.patches) + storage_count(
            rest_new(m, n),
        ),
        walk(m, o, n).old_def == m.old_def,
        walk(m, o, n).new_def == m.new_def,
    decreases walk_measure(m, o, n),
{
    if o is None && n is None {
        assert(storage_count(rest_new(m, n)) == 0);
    } else {
        let d2 = lemma_step_stores(m, o, n, d);
        let (m2, o2, n2) = walk_step(m, o, n);
        assert(walk_measure(m2, o2, n2) < walk_measure(m, o, n));
        lemma_walk_stores(m2, o2, n2, d2);
    }
}

/// Re-rendering without keys: the diff of two well formed walks without keys has one storing
/// patch for each item of the new walk that owns storage, and no keyed patch list.
pub proof fn law_diff_stores_one_entry_per_new_item<M: PartialEq, S>(
    old: Seq<DomItem<M>>,
    new: Seq<DomItem<M>>,
    sto: Seq<S>,
)
    requires
        keyless(old),
        keyless(new),
        well_formed(old),
        well_formed(new),
    ensures
        ({
            let (ps, keyed) = diff_result(old, new, sto);
            &&& patch_store_count(ps) == storage_count(new)
            &&& keyed == Map::<u64, Seq<Patch<M, S>>>::empty()
        }),
{
    let (m1, o) = start(old, new, sto, true).pop_old();
    let (m2, n) = m1.pop_new();
    assert(rest_old(m2, o) =~= old);
    assert(rest_new(m2, n) =~= new);
    assert(patch_store_count(Seq::<Patch<M, S>>::empty()) == 0);
    lemma_walk_stores(m2, o, n, 0);
    let m = run(old, new, sto, true);
    assert(m.old_def =~= Seq::<(u64, Seq<DomItem<M>>, Seq<S>)>::empty());
    assert(m.new_def =~= Seq::<(u64, Seq<DomItem<M>>)>::empty());
}

/// Without keys, walking the rest of an old walk against nothing emits exactly its removals.
proof fn lemma_walk_removes<M: PartialEq, S>(m: DiffModel<M, S>, o: Option<DomItem<M>>)
    requires
        undeferred(m.defer, rest_old(m, o)),
        closes_exactly(rest_old(m, o), 0),
        o is None ==> m.old.len() == 0,
        m.new.len() == 0,
        m.sto.len() >= storage_count(rest_old(m, o)),
    ensures
        walk(m, o, None).patches == m.patches + removals(rest_old(m, o), m.sto, 0),
    decreases walk_measure(m, o, None::<DomItem<M>>),
{
    match o {
        None => {
            reveal(removals);
            assert(rest_old(m, o) =~= Seq::<DomItem<M>>::empty());
            assert(walk(m, o, None) == m);
            assert(m.patches + removals(Seq::<DomItem<M>>::empty(), m.sto, 0) =~= m.patches);
        },
        Some(x) => {
            assert(rest_old(m, o)[0] == x);
            if x is Up {
                lemma_closes_first_up(rest_old(m, o), 0);
            }
            let c = lemma_remove_item_removes(m, x, 0);
            let (m2, o2) = remove_item(m, x);
            let rest2 = rest_old(m2, o2);
            assert(walk_step(m, o, None) == (m2, o2, None::<DomItem<M>>));
            lemma_closes_split(c, rest2, 0);
            lemma_undeferred_split(m.defer, c, rest2);
            lemma_storage_count_concat(c, rest2);
            assert(walk_measure(m2, o2, None::<DomItem<M>>) < walk_measure(m, o, None::<DomItem<M>>));
            assert(walk(m, o, None) == walk(m2, o2, None));
            lemma_walk_removes(m2, o2);
            lemma_removals_concat(c, rest2, m.sto, 0);
            assert forall|k: int| 0 <= k <= c.len() implies 0 + #[trigger] nesting(c.take(k)) >= 0 by {
                assert((c + rest2).take(k) =~= c.take(k));
            }
            lemma_end_depth(c, 0);
            assert(walk(m, o, None).patches =~= m.patches + removals(rest_old(m, o), m.sto, 0));
        },
    }
}

/// Removing a virtual dom without keys: diffing it against an empty one, given its storage,
/// removes each node at the top level with what it holds, and each component nested in one on
/// its own, so that it is detached (as well as each attribute, inner html and listener at the
/// top level); and makes no keyed patch list.
pub proof fn law_diff_to_empty_removes<M: PartialEq, S>(old: Seq<DomItem<M>>, sto: Seq<S>)
    requires
        keyless(old),
        well_formed(old),
        sto.len() >= storage_count(old),
    ensures
        diff_result(old, Seq::<DomItem<M>>::empty(), sto).0 == removals(old, sto, 0),
        diff_result(old, Seq::<DomItem<M>>::empty(), sto).1 == Map::<u64, Seq<Patch<M, S>>>::empty(),
{
    let new = Seq::<DomItem<M>>::empty();
    let (m1, o) = start(old, new, sto, true).pop_old();
    let (m2, n) = m1.pop_new();
    assert(rest_old(m2, o) =~= old);
    assert(rest_new(m2, n) =~= new);
    assert(n is None);
    assert(well_formed(new)) by {
        assert forall|k: int| 0 <= k <= new.len() implies #[trigger] nesting(new.take(k)) >= 0 by {
            assert(new.take(k) =~= new);
        }
    }
    lemma_walk_removes(m2, o);
    lemma_walk_stores(m2, o, n, 0);
    let m = run(old, new, sto, true);
    assert(m.patches =~= removals(old, sto, 0));
    assert(m.old_def =~= Seq::<(u64, Seq<DomItem<M>>, Seq<S>)>::empty());
    assert(m.new_def =~= Seq::<(u64, Seq<DomItem<M>>)>::empty());
}

/// Two items of the old and the new dom that do not match (elements with other names or keys,
/// components with other constructors or keys, items of other kinds): comparing them removes the
/// old item with what it holds, then adds the new item with what it holds.
pub proof fn law_compare_differ_removes_then_adds<M: PartialEq, S>(
    m: DiffModel<M, S>,
    x: DomItem<M>,
    y: DomItem<M>,
)
    requires
        match_of(x, y) is Differ,
    ensures
        compare(m, x, y) == ({
            let (m1, on) = remove_item(m, x);
            let (m2, nn) = add_item(m1, y);
            (m2, on, nn)
        }),
{
}

proof fn lemma_handles_push<M, S>(ps: Seq<Patch<M, S>>, p: Patch<M, S>)
    ensures
        patch_handles(ps.push(p)) == patch_handles(ps) + patch_handle(p),
{
    assert(ps.push(p).drop_last() =~= ps);
}

/// Appending patches that take over no handle leaves the handles as they are.
proof fn lemma_handles_quiet_tail<M, S>(a: Seq<Patch<M, S>>, b: Seq<Patch<M, S>>)
    requires
        forall|k: int| 0 <= k < b.len() ==> patch_handle(#[trigger] b[k]) == Seq::<S>::empty(),
    ensures
        patch_handles(a + b) == patch_handles(a),
    decreases b.len(),
{
    if b.len() == 0 {
        assert(a + b =~= a);
    } else {
        let t = b.drop_last();
        assert forall|k: int| 0 <= k < t.len() implies patch_handle(#[trigger] t[k])
            == Seq::<S>::empty() by {
            assert(t[k] == b[k]);
        }
        lemma_handles_quiet_tail(a, t);
        assert(a + b =~= (a + t).push(b.last()));
        lemma_handles_push(a + t, b.last());
        assert(patch_handle(b[b.len() - 1]) == Seq::<S>::empty());
        assert(patch_handles(a) + Seq::<S>::empty() =~= patch_handles(a));
    }
}

/// Creation patches take over no handle.
proof fn lemma_handles_creations<M, S>(a: Seq<Patch<M, S>>, c: Seq<DomItem<M>>)
    ensures
        patch_handles(a + creations::<M, S>(c)) == patch_handles(a),
{
    let b = creations::<M, S>(c);
    assert forall|k: int| 0 <= k < b.len() implies patch_handle(#[trigger] b[k])
        == Seq::<S>::empty() by {
        assert(b[k] == create_patch::<M, S>(c[k]));
    }
    lemma_handles_quiet_tail(a, b);
}

/// `h` is taken from `sto` in order: `idx` gives, for each handle, the place below `c` in
/// `sto` it was taken from, each place after the one before.
pub open spec fn taken_in_order<S>(h: Seq<S>, sto: Seq<S>, idx: Seq<int>, c: int) -> bool {
    &&& idx.len() == h.len()
    &&& forall|a: int, b: int| 0 <= a < b < idx.len() ==> idx[a] < idx[b]
    &&& forall|a: int| 0 <= a < idx.len() ==> 0 <= #[trigger] idx[a] < c && h[a] == sto[idx[a]]
}

proof fn lemma_handles_concat<M, S>(a: Seq<Patch<M, S>>, b: Seq<Patch<M, S>>)
    ensures
        patch_handles(a + b) == patch_handles(a) + patch_handles(b),
    decreases b.len(),
{
    if b.len() == 0 {
        assert(a + b =~= a);
        assert(patch_handles(a) + patch_handles(b) =~= patch_handles(a));
    } else {
        lemma_handles_concat(a, b.drop_last());
        assert((a + b).drop_last() =~= a + b.drop_last());
        assert((a + b).last() == b.last());
        assert(patch_handles(a + b) =~= patch_handles(a) + patch_handles(b));
    }
}

/// The patches that remove a walk take over its storage entries in order, each at most once.
proof fn lemma_removal_handles<M, S>(c: Seq<DomItem<M>>, sto: Seq<S>, d: nat) -> (ix: Seq<int>)
    requires
        sto.len() >= storage_count(c),
    ensures
        taken_in_order(patch_handles(removals(c, sto, d)), sto, ix, storage_count(c) as int),
    decreases c.len(),
{
    reveal(removals);
    if c.len() == 0 {
        assert(patch_handles(Seq::<Patch<M, S>>::empty()) =~= Seq::<S>::empty());
        Seq::<int>::empty()
    } else {
        let i = c[0];
        let t = c.drop_first();
        let u = uses_storage(i);
        let sto1 = if u {
            sto.drop_first()
        } else {
            sto
        };
        let sh: int = if u {
            1
        } else {
            0
        };
        let here: Seq<Patch<M, S>> = if d == 0 {
            match i {
                DomItem::Element { .. } | DomItem::Text(_) | DomItem::Component { .. } => seq![
                    removal_patch(i, sto[0]),
                ],
                DomItem::UnsafeInnerHtml(_) => seq![Patch::UnsetInnerHtml],
                DomItem::Event { trigger, .. } => seq![Patch::RemoveListener { trigger, take: sto[0] }],
                DomItem::Attr { name, .. } => seq![Patch::RemoveAttribute(name)],
                _ => seq![],
            }
        } else if i is Component {
            seq![Patch::RemoveComponent(sto[0])]
        } else {
            seq![]
        };
        let rest = removals(t, sto1, next_depth(i, d));
        assert(removals(c, sto, d) == here + rest);
        let ix1 = lemma_removal_handles(t, sto1, next_depth(i, d));
        lemma_handles_concat(here, rest);
        assert(c =~= seq![i] + t);
        lemma_storage_count_concat(seq![i], t);
        lemma_storage_count_single(i);
        let hh = patch_handles(here);
        if here.len() == 1 {
            lemma_handles_push(Seq::<Patch<M, S>>::empty(), here[0]);
            assert(Seq::<Patch<M, S>>::empty().push(here[0]) =~= here);
            assert(patch_handles(Seq::<Patch<M, S>>::empty()) =~= Seq::<S>::empty());
        } else {
            assert(here =~= Seq::<Patch<M, S>>::empty());
            assert(patch_handles(Seq::<Patch<M, S>>::empty()) =~= Seq::<S>::empty());
        }
        let shifted = ix1.map_values(|a: int| a + sh);
        let ix = if hh.len() == 1 {
            seq![0int] + shifted
        } else {
            shifted
        };
        if hh.len() == 1 {
            assert(hh =~= seq![sto[0]]);
            assert(u);
        } else {
            assert(hh =~= Seq::<S>::empty());
        }
        let h = patch_handles(removals(c, sto, d));
        assert(h =~= hh + patch_handles(rest));
        assert forall|a: int| 0 <= a < ix.len() implies 0 <= #[trigger] ix[a] < storage_count(c)
            && h[a] == sto[ix[a]] by {
            if hh.len() == 1 {
                if a > 0 {
                    assert(ix[a] == ix1[a - 1] + sh);
                    assert(sto1[ix1[a - 1]] == sto[ix1[a - 1] + sh]);
                }
            } else {
                assert(ix[a] == ix1[a] + sh);
                assert(sto1[ix1[a]] == sto[ix1[a] + sh]);
            }
        }
        assert forall|a: int, b: int| 0 <= a < b < ix.len() implies ix[a] < ix[b] by {
            if hh.len() == 1 {
                if a > 0 {
                    assert(ix[a] == ix1[a - 1] + sh);
                }
                assert(ix[b] == ix1[b - 1] + sh);
            } else {
                assert(ix[a] == ix1[a] + sh);
                assert(ix[b] == ix1[b] + sh);
            }
        }
        ix
    }
}


/// The handles the patches of one step add after those of the patches before it.
pub open spec fn added_handles<M, S>(before: Seq<Patch<M, S>>, after: Seq<Patch<M, S>>) -> Seq<S> {
    patch_handles(after).skip(patch_handles(before).len() as int)
}

/// The handles of `after` start with those of `before`.
pub open spec fn handles_extend<M, S>(before: Seq<Patch<M, S>>, after: Seq<Patch<M, S>>) -> bool {
    &&& patch_handles(before).len() <= patch_handles(after).len()
    &&& patch_handles(after).take(patch_handles(before).len() as int) == patch_handles(before)
}

proof fn lemma_handles_append<S>(a: Seq<S>, h: Seq<S>)
    ensures
        (a + h).take(a.len() as int) == a,
        (a + h).skip(a.len() as int) == h,
{
    assert((a + h).take(a.len() as int) =~= a);
    assert((a + h).skip(a.len() as int) =~= h);
}

/// Without keys, one step of the lock step walk uses up a prefix of the storage entries left,
/// and takes over some of them, in order.
#[verifier::spinoff_prover]
#[verifier::rlimit(60)]
proof fn lemma_step_handles<M: PartialEq, S>(
    m: DiffModel<M, S>,
    o: Option<DomItem<M>>,
    n: Option<DomItem<M>>,
    d: nat,
) -> (res: (nat, Seq<int>))
    requires
        undeferred(m.defer, rest_old(m, o)),
        undeferred(m.defer, rest_new(m, n)),
        closes_exactly(rest_old(m, o), d),
        closes_exactly(rest_new(m, n), d),
        o is None ==> m.old.len() == 0,
        n is None ==> m.new.len() == 0,
        o is Some || n is Some,
        m.sto.len() >= storage_count(rest_old(m, o)),
    ensures
        ({
            let (m2, o2, n2) = walk_step(m, o, n);
            let (j, ix) = res;
            &&& j <= m.sto.len()
            &&& m2.sto == m.sto.skip(j as int)
            &&& m2.sto.len() >= storage_count(rest_old(m2, o2))
            &&& handles_extend(m.patches, m2.patches)
            &&& taken_in_order(added_handles(m.patches, m2.patches), m.sto, ix, j as int)
        }),
{
    let (m2, o2, n2) = walk_step(m, o, n);
    let hm = patch_handles(m.patches);
    assert(m.sto.skip(0) =~= m.sto);
    lemma_handles_append(hm, Seq::<S>::empty());
    assert(hm + Seq::<S>::empty() =~= hm);
    let none = Seq::<int>::empty();
    match (o, n) {
        (None, Some(y)) => {
            if y is Up {
                lemma_closes_first_up(rest_new(m, n), d);
            }
            assert(nesting(Seq::<DomItem<M>>::empty()) == 0);
            let c = lemma_add_item_stores(m, y, d);
            lemma_handles_creations(m.patches, c);
            (0, none)
        },
        (Some(x), None) => {
            if x is Up {
                lemma_closes_first_up(rest_old(m, o), d);
            }
            assert(nesting(Seq::<DomItem<M>>::empty()) == 0);
            let c = lemma_remove_item_removes(m, x, d);
            lemma_storage_count_concat(c, rest_old(m2, o2));
            lemma_handles_concat(m.patches, removals(c, m.sto, 0));
            lemma_handles_append(hm, patch_handles(removals(c, m.sto, 0)));
            let ix = lemma_removal_handles(c, m.sto, 0);
            (storage_count(c), ix)
        },
        (Some(x), Some(y)) => {
            assert(walk_step(m, o, n) == compare(m, x, y));
            assert(rest_old(m, o)[0] == x);
            assert(rest_new(m, n)[0] == y);
            assert(!(is_keyed(x) && m.defer));
            assert(!(is_keyed(y) && m.defer));
            assert(rest_old(m, o) =~= seq![x] + m.old);
            lemma_storage_count_concat(seq![x], m.old);
            lemma_storage_count_single(x);
            match match_of(x, y) {
                Match::Differ => {
                    let (m1, on) = remove_item(m, x);
                    if x is Up {
                        assert(!(y is Up));
                        let c = lemma_add_item_stores(m, y, d);
                        lemma_handles_creations(m.patches, c);
                        (0, none)
                    } else {
                        let co = lemma_remove_item_removes(m, x, d);
                        lemma_closes_split(co, rest_old(m1, on), d);
                        lemma_undeferred_split(m.defer, co, rest_old(m1, on));
                        lemma_storage_count_concat(co, rest_old(m1, on));
                        assert(rest_new(m1, n) == rest_new(m, n));
                        lemma_handles_concat(m.patches, removals(co, m.sto, 0));
                        if !(y is Up) {
                            let c = lemma_add_item_stores(m1, y, d);
                            lemma_handles_creations(m1.patches, c);
                        }
                        lemma_handles_append(hm, patch_handles(removals(co, m.sto, 0)));
                        let ix = lemma_removal_handles(co, m.sto, 0);
                        (storage_count(co), ix)
                    }
                },
                _ => {
                    assert(rest_old(m2, o2) =~= m.old);
                    match match_of(x, y) {
                        Match::Attrs => {
                            match (x, y) {
                                (DomItem::Attr { name: on, .. }, DomItem::Attr { name: nn, value: nv }) => {
                                    lemma_handles_push(m.patches, Patch::<M, S>::RemoveAttribute(on));
                                    lemma_handles_push(m.patches, Patch::<M, S>::SetAttribute { name: nn, value: nv });
                                    lemma_handles_push(m.patches.push(Patch::<M, S>::RemoveAttribute(on)), Patch::<M, S>::SetAttribute { name: nn, value: nv });
                                },
                                _ => {},
                            }
                            (0, none)
                        },
                        Match::InnerHtml => {
                            match (x, y) {
                                (DomItem::UnsafeInnerHtml(_), DomItem::UnsafeInnerHtml(nh)) => {
                                    lemma_handles_push(m.patches, Patch::<M, S>::SetInnerHtml(nh));
                                },
                                _ => {},
                            }
                            (0, none)
                        },
                        Match::Events => {
                            let (m1, w) = m.take_sto();
                            match (x, y) {
                                (DomItem::Event { trigger: ot, .. }, DomItem::Event { trigger: nt, handler: nh }) => {
                                    let r = Patch::<M, S>::RemoveListener { trigger: ot, take: w };
                                    lemma_handles_push(m.patches, r);
                                    lemma_handles_push(m.patches.push(r), Patch::<M, S>::AddListener { trigger: nt, handler: nh });
                                    lemma_handles_push(m.patches, Patch::<M, S>::CopyListener(w));
                                },
                                _ => {},
                            }
                            assert(patch_handles(m.patches.push(Patch::<M, S>::RemoveListener { trigger: x->trigger, take: w })) + Seq::<S>::empty() =~= patch_handles(m.patches.push(Patch::<M, S>::RemoveListener { trigger: x->trigger, take: w })));
                            assert(m.sto.drop_first() =~= m.sto.skip(1));
                            lemma_handles_append(hm, seq![w]);
                            (1, seq![0int])
                        },
                        _ => {
                            let (m1, w) = m.take_sto();
                            lemma_handles_push(m.patches, m2.patches.last());
                            assert(m2.patches == m.patches.push(m2.patches.last()));
                            assert(m.sto.drop_first() =~= m.sto.skip(1));
                            if m2.patches.last() is Up {
                                (1, none)
                            } else {
                                lemma_handles_append(hm, seq![w]);
                                (1, seq![0int])
                            }
                        },
                    }
                },
            }
        },
        (None, None) => (0, none),
    }
}

/// Without keys, the lock step walk takes over the storage entries it is handed in order, each
/// at most once.
proof fn lemma_walk_handles<M: PartialEq, S>(
    m: DiffModel<M, S>,
    o: Option<DomItem<M>>,
    n: Option<DomItem<M>>,
    d: nat,
    sto: Seq<S>,
    c: nat,
    idx: Seq<int>,
) -> (idx2: Seq<int>)
    requires
        undeferred(m.defer, rest_old(m, o)),
        undeferred(m.defer, rest_new(m, n)),
        closes_exactly(rest_old(m, o), d),
        closes_exactly(rest_new(m, n), d),
        o is None ==> m.old.len() == 0,
        n is None ==> m.new.len() == 0,
        c <= sto.len(),
        m.sto == sto.skip(c as int),
        m.sto.len() >= storage_count(rest_old(m, o)),
        taken_in_order(patch_handles(m.patches), sto, idx, c as int),
    ensures
        taken_in_order(patch_handles(walk(m, o, n).patches), sto, idx2, sto.len() as int),
    decreases walk_measure(m, o, n),
{
    if o is None && n is None {
        idx
    } else {
        let d2 = lemma_step_stores(m, o, n, d);
        let (j, ix) = lemma_step_handles(m, o, n, d);
        let (m2, o2, n2) = walk_step(m, o, n);
        assert(walk_measure(m2, o2, n2) < walk_measure(m, o, n));
        assert(m2.sto =~= sto.skip((c + j) as int));
        let h1 = patch_handles(m.patches);
        let h2 = patch_handles(m2.patches);
        let add = added_handles(m.patches, m2.patches);
        assert(h2 =~= h1 + add);
        let idx1 = idx + ix.map_values(|a: int| a + c);
        assert(taken_in_order(h2, sto, idx1, (c + j) as int)) by {
            assert forall|a: int| 0 <= a < idx1.len() implies 0 <= #[trigger] idx1[a] < c + j
                && h2[a] == sto[idx1[a]] by {
                if a < idx.len() {
                    assert(idx1[a] == idx[a]);
                } else {
                    let b = a - idx.len();
                    assert(idx1[a] == ix[b] + c);
                    assert(add[b] == m.sto[ix[b]]);
                    assert(m.sto[ix[b]] == sto[ix[b] + c]);
                }
            }
            assert forall|a: int, b: int| 0 <= a < b < idx1.len() implies idx1[a] < idx1[b] by {
                if b >= idx.len() {
                    assert(idx1[b] == ix[b - idx.len()] + c);
                }
                if a >= idx.len() {
                    assert(idx1[a] == ix[a - idx.len()] + c);
                }
            }
        }
        lemma_walk_handles(m2, o2, n2, d2, sto, c + j, idx1)
    }
}

/// Re-rendering without keys: the patches of the diff of two well formed walks without keys
/// take over the storage entries of the old dom in the order they were stored, each at most
/// once.
pub proof fn law_diff_takes_each_entry_at_most_once<M: PartialEq, S>(
    old: Seq<DomItem<M>>,
    new: Seq<DomItem<M>>,
    sto: Seq<S>,
)
    requires
        keyless(old),
        keyless(new),
        well_formed(old),
        well_formed(new),
        sto.len() >= storage_count(old),
    ensures
        exists|idx: Seq<int>|
            taken_in_order(patch_handles(diff_result(old, new, sto).0), sto, idx, sto.len() as int),
        sto.no_duplicates() ==> patch_handles(diff_result(old, new, sto).0).no_duplicates(),
{
    let (m1, o) = start(old, new, sto, true).pop_old();
    let (m2, n) = m1.pop_new();
    assert(rest_old(m2, o) =~= old);
    assert(rest_new(m2, n) =~= new);
    assert(sto.skip(0) =~= sto);
    assert(patch_handles(Seq::<Patch<M, S>>::empty()) =~= Seq::<S>::empty());
    assert(taken_in_order(Seq::<S>::empty(), sto, Seq::<int>::empty(), 0));
    lemma_walk_stores(m2, o, n, 0);
    let idx = lemma_walk_handles(m2, o, n, 0, sto, 0, Seq::<int>::empty());
    let m = run(old, new, sto, true);
    assert(m.old_def =~= Seq::<(u64, Seq<DomItem<M>>, Seq<S>)>::empty());
    assert(m.new_def =~= Seq::<(u64, Seq<DomItem<M>>)>::empty());
    let h = patch_handles(diff_result(old, new, sto).0);
    if sto.no_duplicates() {
        assert forall|a: int, b: int| 0 <= a < h.len() && 0 <= b < h.len() && a != b implies h[a]
            != h[b] by {
            if a < b {
                assert(idx[a] < idx[b]);
            } else {
                assert(idx[b] < idx[a]);
            }
        }
    }
}

/// Diffing a listener against one with another trigger or another handler replaces it: the
/// old listener (held by the next storage entry) is removed and the new one added. A handler
/// is another one when it is of another kind, names another callback, or carries a message
/// that is not equal to the old one.
pub proof fn law_changed_listener_is_replaced<M: PartialEq, S>(
    m: DiffModel<M, S>,
    t1: String,
    h1: EventHandler<M>,
    t2: String,
    h2: EventHandler<M>,
)
    ensures
        ({
            let replaced = compare(
                m,
                DomItem::Event { trigger: t1, handler: h1 },
                DomItem::Event { trigger: t2, handler: h2 },
            ).0.patches == m.patches + seq![
                Patch::RemoveListener { trigger: t1, take: m.sto[0] },
                Patch::AddListener { trigger: t2, handler: h2 },
            ];
            &&& t1@ != t2@ ==> replaced
            &&& (h1 matches EventHandler::Msg(a) && h2 matches EventHandler::Msg(b) && !a.eq_spec(
                &b,
            )) ==> replaced
            &&& (h1 matches EventHandler::FnMsg(a, f) && h2 matches EventHandler::FnMsg(b, g) && !(
            a.eq_spec(&b) && f == g)) ==> replaced
            &&& (h1 matches EventHandler::Fn(f) && h2 matches EventHandler::Fn(g) && f != g)
                ==> replaced
            &&& (h1 matches EventHandler::InputValue(f) && h2 matches EventHandler::InputValue(g)
                && f != g) ==> replaced
            &&& (h1 matches EventHandler::InputEvent(f) && h2 matches EventHandler::InputEvent(g)
                && f != g) ==> replaced
            &&& !(h1 is Msg && h2 is Msg) && !(h1 is Fn && h2 is Fn) && !(h1 is FnMsg && h2 is FnMsg)
                && !(h1 is InputValue && h2 is InputValue) && !(h1 is InputEvent
                && h2 is InputEvent) ==> replaced
        }),
{
    let x = DomItem::<M>::Event { trigger: t1, handler: h1 };
    let y = DomItem::<M>::Event { trigger: t2, handler: h2 };
    assert(match_of(x, y) is Events);
    let (m1, w) = m.take_sto();
    let r = Patch::<M, S>::RemoveListener { trigger: t1, take: w };
    let a = Patch::<M, S>::AddListener { trigger: t2, handler: h2 };
    assert(m1.emit(r).emit(a).patches =~= m.patches + seq![r, a]);
}

/// Diffing a listener against one with the same trigger and an equal handler (of the same kind,
/// naming the same callback, carrying an equal message) keeps it: the listener held by the next
/// storage entry is copied over.
pub proof fn law_same_listener_is_kept<M: PartialEq, S>(
    m: DiffModel<M, S>,
    t1: String,
    h1: EventHandler<M>,
    t2: String,
    h2: EventHandler<M>,
)
    requires
        t1@ == t2@,
        ({
            ||| (h1 matches EventHandler::Msg(a) && h2 matches EventHandler::Msg(b) && a.eq_spec(&b))
            ||| (h1 matches EventHandler::FnMsg(a, f) && h2 matches EventHandler::FnMsg(b, g)
                && a.eq_spec(&b) && f == g)
            ||| (h1 matches EventHandler::Fn(f) && h2 matches EventHandler::Fn(g) && f == g)
            ||| (h1 matches EventHandler::InputValue(f) && h2 matches EventHandler::InputValue(g)
                && f == g)
            ||| (h1 matches EventHandler::InputEvent(f) && h2 matches EventHandler::InputEvent(g)
                && f == g)
        }),
    ensures
        compare(
            m,
            DomItem::Event { trigger: t1, handler: h1 },
            DomItem::Event { trigger: t2, handler: h2 },
        ).0.patches == m.patches.push(Patch::CopyListener(m.sto[0])),
{
    let x = DomItem::<M>::Event { trigger: t1, handler: h1 };
    let y = DomItem::<M>::Event { trigger: t2, handler: h2 };
    assert(match_of(x, y) is Events);
}

/// Diffing an attribute against one of the same name and value: an attribute the browser may
/// change on its own (`checked`, `selected` or `spellcheck`) is set again, so that the state it
/// describes is restored; any other is left as it is.
pub proof fn law_unchanged_attribute<M: PartialEq, S>(
    m: DiffModel<M, S>,
    n1: String,
    v1: String,
    n2: String,
    v2: String,
)
    requires
        n1@ == n2@,
        v1@ == v2@,
    ensures
        ({
            let r = compare(
                m,
                DomItem::Attr { name: n1, value: v1 },
                DomItem::Attr { name: n2, value: v2 },
            ).0;
            &&& n2@ == "checked"@ || n2@ == "selected"@ || n2@ == "spellcheck"@ ==> r.patches
                == m.patches.push(Patch::SetAttribute { name: n2, value: v2 })
            &&& !(n2@ == "checked"@ || n2@ == "selected"@ || n2@ == "spellcheck"@) ==> r.patches
                == m.patches
        }),
{
    let x = DomItem::<M>::Attr { name: n1, value: v1 };
    let y = DomItem::<M>::Attr { name: n2, value: v2 };
    assert(match_of(x, y) is Attrs);
}

/// Every attribute, inner html and event handler of the rest `r` of a walk, whose walked part
/// is `d` levels deep, stands inside an open node.
pub open spec fn attached_at<M>(r: Seq<DomItem<M>>, d: nat) -> bool {
    forall|k: int|
        #![trigger r[k]]
        0 <= k < r.len() && (r[k] is Attr || r[k] is Event || r[k] is UnsafeInnerHtml) ==> d
            + nesting(r.take(k)) > 0
}

/// Every text node of the rest `r` of a walk, whose walked part is `d` levels deep, stands
/// inside an open node.
pub open spec fn texts_inside_at<M>(r: Seq<DomItem<M>>, d: nat) -> bool {
    forall|k: int| #![trigger r[k]] 0 <= k < r.len() && r[k] is Text ==> d + nesting(r.take(k)) > 0
}

/// Every text node of the walk `s` stands inside a node.
pub open spec fn texts_inside<M>(s: Seq<DomItem<M>>) -> bool {
    texts_inside_at(s, 0)
}

pub(crate) proof fn lemma_inside_split<M>(a: Seq<DomItem<M>>, b: Seq<DomItem<M>>, d: nat)
    requires
        d + nesting(a) >= 0,
    ensures
        attached_at(a + b, d) ==> attached_at(b, (d + nesting(a)) as nat),
        texts_inside_at(a + b, d) ==> texts_inside_at(b, (d + nesting(a)) as nat),
        no_key_refs(a + b) ==> no_key_refs(b),
{
    assert forall|k: int| 0 <= k < b.len() implies (a + b).take(a.len() + k) =~= a + b.take(k)
        && (a + b)[a.len() + k] == b[k] && nesting((a + b).take(a.len() + k)) == nesting(a)
        + nesting(b.take(k)) by {
        assert((a + b).take(a.len() + k) =~= a + b.take(k));
        lemma_nesting_concat(a, b.take(k));
    }
    if attached_at(a + b, d) {
        assert forall|k: int|
            #![trigger b[k]]
            0 <= k < b.len() && (b[k] is Attr || b[k] is Event || b[k] is UnsafeInnerHtml) implies (d
            + nesting(a)) as nat + nesting(b.take(k)) > 0 by {
            assert((a + b)[a.len() + k] == b[k]);
        }
    }
    if texts_inside_at(a + b, d) {
        assert forall|k: int| #![trigger b[k]] 0 <= k < b.len() && b[k] is Text implies (d + nesting(
            a,
        )) as nat + nesting(b.take(k)) > 0 by {
            assert((a + b)[a.len() + k] == b[k]);
        }
    }
    if no_key_refs(a + b) {
        assert forall|k: int| 0 <= k < b.len() implies !(#[trigger] b[k] is Key) by {
            assert((a + b)[a.len() + k] == b[k]);
        }
    }
}

pub(crate) proof fn lemma_push_open_ok<M, S>(ps: Seq<Patch<M, S>>, p: Patch<M, S>, refs: bool)
    requires
        patches_open_ok_if(ps, refs),
        refs || !(p is ReferenceKey),
        works_on_node(p) || p is Up ==> patch_nesting(ps) > 0,
    ensures
        patches_open_ok_if(ps.push(p), refs),
        patch_nesting(ps.push(p)) == patch_nesting(ps) + patch_depth_change(p),
{
    let q = ps.push(p);
    assert(q.drop_last() =~= ps);
    assert forall|k: int|
        #![trigger q[k]]
        0 <= k < q.len() && (works_on_node(q[k]) || q[k] is Up) implies patch_nesting(q.take(k)) > 0 by {
        if k < ps.len() {
            assert(q.take(k) =~= ps.take(k));
            assert(q[k] == ps[k]);
        } else {
            assert(q.take(k) =~= ps);
        }
    }
    if !refs {
        assert forall|k: int| 0 <= k < q.len() implies !(#[trigger] q[k] is ReferenceKey) by {
            if k < ps.len() {
                assert(q[k] == ps[k]);
            }
        }
    }
}

/// Appending the creation patches of the walk `s`, which starts `d` levels deep and keeps its
/// attributes inside open nodes, keeps every patch that needs an open node after one.
proof fn lemma_creations_open_ok<M, S>(ps: Seq<Patch<M, S>>, s: Seq<DomItem<M>>, d: nat, refs: bool)
    requires
        patches_open_ok_if(ps, refs),
        patch_nesting(ps) == d,
        attached_at(s, d),
        refs || no_key_refs(s),
        forall|k: int| 0 <= k <= s.len() ==> d + #[trigger] nesting(s.take(k)) >= 0,
    ensures
        patches_open_ok_if(ps + creations::<M, S>(s), refs),
        patch_nesting(ps + creations::<M, S>(s)) == d + nesting(s),
    decreases s.len(),
{
    if s.len() == 0 {
        assert(ps + creations::<M, S>(s) =~= ps);
    } else {
        let t = s.drop_last();
        let x = s.last();
        let j = t.len() as int;
        assert(t.take(j) =~= t);
        assert forall|k: int| 0 <= k <= t.len() implies d + #[trigger] nesting(t.take(k)) >= 0 by {
            assert(t.take(k) =~= s.take(k));
        }
        assert(attached_at(t, d)) by {
            assert forall|k: int|
                #![trigger t[k]]
                0 <= k < t.len() && (t[k] is Attr || t[k] is Event || t[k] is UnsafeInnerHtml) implies d
                + nesting(t.take(k)) > 0 by {
                assert(t.take(k) =~= s.take(k));
                assert(t[k] == s[k]);
            }
        }
        assert(refs || no_key_refs(t)) by {
            if !refs {
                assert forall|k: int| 0 <= k < t.len() implies !(#[trigger] t[k] is Key) by {
                    assert(t[k] == s[k]);
                }
            }
        }
        lemma_creations_open_ok(ps, t, d, refs);
        assert(creations::<M, S>(s) =~= creations::<M, S>(t).push(create_patch::<M, S>(x)));
        assert(ps + creations::<M, S>(s) =~= (ps + creations::<M, S>(t)).push(create_patch::<M, S>(x)));
        assert(s.take(j) =~= t);
        assert(s.take(j + 1) =~= s);
        assert(s[j] == x);
        assert(refs || !(x is Key));
        assert(s.drop_last() == t);
        let p = create_patch::<M, S>(x);
        assert(patch_depth_change(p) == depth_change(x));
        assert(d + nesting(s.take(j + 1)) >= 0);
        assert(nesting(s) == nesting(t) + depth_change(x));
        if x is Attr || x is Event || x is UnsafeInnerHtml {
            assert(d + nesting(s.take(j)) > 0);
        }
        lemma_push_open_ok(ps + creations::<M, S>(t), p, refs);
    }
}


pub(crate) proof fn lemma_inside_prefix<M>(a: Seq<DomItem<M>>, b: Seq<DomItem<M>>, d: nat)
    ensures
        attached_at(a + b, d) ==> attached_at(a, d),
        no_key_refs(a + b) ==> no_key_refs(a),
        closes_exactly(a + b, d) ==> forall|k: int|
            0 <= k <= a.len() ==> d + #[trigger] nesting(a.take(k)) >= 0,
{
    if attached_at(a + b, d) {
        assert forall|k: int|
            #![trigger a[k]]
            0 <= k < a.len() && (a[k] is Attr || a[k] is Event || a[k] is UnsafeInnerHtml) implies d
            + nesting(a.take(k)) > 0 by {
            assert((a + b)[k] == a[k]);
            assert((a + b).take(k) =~= a.take(k));
        }
    }
    if no_key_refs(a + b) {
        assert forall|k: int| 0 <= k < a.len() implies !(#[trigger] a[k] is Key) by {
            assert((a + b)[k] == a[k]);
        }
    }
    if closes_exactly(a + b, d) {
        assert forall|k: int| 0 <= k <= a.len() implies d + #[trigger] nesting(a.take(k)) >= 0 by {
            assert((a + b).take(k) =~= a.take(k));
        }
    }
}

/// The conditions under which the lock step walk emits every patch that needs an open node
/// after one: both walks at the same depth `d`, keeping attributes, inner html, event handlers
/// (and, on the old side, text nodes) inside open nodes, with `d` nodes left open by the
/// patches so far.
pub open spec fn walk_open_ok<M, S>(
    m: DiffModel<M, S>,
    o: Option<DomItem<M>>,
    n: Option<DomItem<M>>,
    d: nat,
    refs: bool,
) -> bool {
    &&& undeferred(m.defer, rest_old(m, o))
    &&& undeferred(m.defer, rest_new(m, n))
    &&& closes_exactly(rest_old(m, o), d)
    &&& closes_exactly(rest_new(m, n), d)
    &&& o is None ==> m.old.len() == 0
    &&& n is None ==> m.new.len() == 0
    &&& attached_at(rest_old(m, o), d)
    &&& attached_at(rest_new(m, n), d)
    &&& texts_inside_at(rest_old(m, o), d)
    &&& refs || no_key_refs(rest_new(m, n))
    &&& patches_open_ok_if(m.patches, refs)
    &&& patch_nesting(m.patches) == d
}

/// Without keys, one step of the lock step walk keeps emitting every patch that needs an open
/// node after one.
#[verifier::spinoff_prover]
#[verifier::rlimit(40)]
proof fn lemma_step_open_ok<M: PartialEq, S>(
    m: DiffModel<M, S>,
    o: Option<DomItem<M>>,
    n: Option<DomItem<M>>,
    d: nat,
    refs: bool,
) -> (d2: nat)
    requires
        walk_open_ok(m, o, n, d, refs),
        o is Some || n is Some,
    ensures
        ({
            let (m2, o2, n2) = walk_step(m, o, n);
            &&& walk_open_ok(m2, o2, n2, d2, refs)
            &&& walk_measure(m2, o2, n2) < walk_measure(m, o, n)
            &&& m2.old_def == m.old_def
            &&& m2.new_def == m.new_def
        }),
{
    let d2 = lemma_step_stores(m, o, n, d);
    let (m2, o2, n2) = walk_step(m, o, n);
    match (o, n) {
        (None, Some(y)) => {
            if y is Up {
                lemma_closes_first_up(rest_new(m, n), d);
            }
            let c = lemma_add_item_stores(m, y, d);
            lemma_inside_prefix(c, rest_new(m2, n2), d);
            lemma_creations_open_ok(m.patches, c, d, refs);
            lemma_inside_split(c, rest_new(m2, n2), d);
            lemma_closes_split(c, rest_new(m2, n2), d);
        },
        (Some(x), None) => {
            if x is Up {
                lemma_closes_first_up(rest_old(m, o), d);
            }
            let c = lemma_remove_item_quiet(m, x, d);
            assert(rest_old(m, o)[0] == x);
            assert(rest_old(m, o).take(0) =~= Seq::<DomItem<M>>::empty());
            lemma_quiet_tail_open_ok(m.patches, m2.patches, x, refs);
            lemma_inside_split(c, rest_old(m2, o2), d);
            lemma_closes_split(c, rest_old(m2, o2), d);
        },
        (Some(x), Some(y)) => {
            assert(walk_step(m, o, n) == compare(m, x, y));
            assert(rest_old(m, o)[0] == x);
            assert(rest_new(m, n)[0] == y);
            assert(rest_old(m, o).take(0) =~= Seq::<DomItem<M>>::empty());
            assert(rest_new(m, n).take(0) =~= Seq::<DomItem<M>>::empty());
            assert(!(is_keyed(x) && m.defer));
            assert(!(is_keyed(y) && m.defer));
            lemma_nesting_single(x);
            lemma_nesting_single(y);
            assert(rest_old(m, o) =~= seq![x] + m.old);
            assert(rest_new(m, n) =~= seq![y] + m.new);
            match match_of(x, y) {
                Match::Differ => {
                    let (m1, on) = remove_item(m, x);
                    if x is Up {
                        assert(!(y is Up));
                        let c = lemma_add_item_stores(m, y, d);
                        lemma_inside_prefix(c, rest_new(m2, n2), d);
                        lemma_creations_open_ok(m.patches, c, d, refs);
                        lemma_inside_split(c, rest_new(m2, n2), d);
                        lemma_closes_split(c, rest_new(m2, n2), d);
                    } else {
                        let co = lemma_remove_item_quiet(m, x, d);
                        lemma_quiet_tail_open_ok(m.patches, m1.patches, x, refs);
                        lemma_inside_split(co, rest_old(m1, on), d);
                        lemma_closes_split(co, rest_old(m1, on), d);
                        assert(rest_new(m1, n) == rest_new(m, n));
                        if !(y is Up) {
                            let c = lemma_add_item_stores(m1, y, d);
                            lemma_inside_prefix(c, rest_new(m2, n2), d);
                            lemma_creations_open_ok(m1.patches, c, d, refs);
                            lemma_inside_split(c, rest_new(m2, n2), d);
                            lemma_closes_split(c, rest_new(m2, n2), d);
                        }
                    }
                },
                _ => {
                    assert(rest_old(m2, o2) =~= m.old);
                    assert(rest_new(m2, n2) =~= m.new);
                    lemma_closes_split(seq![x], m.old, d);
                    lemma_closes_split(seq![y], m.new, d);
                    lemma_inside_split(seq![x], m.old, d);
                    lemma_inside_split(seq![y], m.new, d);
                    if y is Up {
                        lemma_closes_first_up(rest_new(m, n), d);
                    }
                    let (m1, w) = m.take_sto();
                    match (x, y) {
                        (DomItem::Attr { name: on, .. }, DomItem::Attr { name: nn, value: nv }) => {
                            let a = Patch::<M, S>::RemoveAttribute(on);
                            let b = Patch::<M, S>::SetAttribute { name: nn, value: nv };
                            lemma_push_open_ok(m.patches, b, refs);
                            lemma_push_open_ok(m.patches, a, refs);
                            lemma_push_open_ok(m.patches.push(a), b, refs);
                        },
                        (DomItem::UnsafeInnerHtml(_), DomItem::UnsafeInnerHtml(nh)) => {
                            lemma_push_open_ok(m.patches, Patch::<M, S>::SetInnerHtml(nh), refs);
                        },
                        (DomItem::Event { trigger: ot, .. }, DomItem::Event { trigger: nt, handler: nh }) => {
                            let a = Patch::<M, S>::RemoveListener { trigger: ot, take: w };
                            let b = Patch::<M, S>::AddListener { trigger: nt, handler: nh };
                            lemma_push_open_ok(m.patches, a, refs);
                            lemma_push_open_ok(m.patches.push(a), b, refs);
                            lemma_push_open_ok(m.patches, Patch::<M, S>::CopyListener(w), refs);
                        },
                        _ => {
                            lemma_push_open_ok(m.patches, m2.patches.last(), refs);
                            assert(m2.patches == m.patches.push(m2.patches.last()));
                        },
                    }
                },
            }
        },
        (None, None) => {},
    }
    d2
}

/// Without keys, the lock step walk emits every patch that needs an open node after one, and
/// leaves no node open.
pub(crate) proof fn lemma_walk_open_ok<M: PartialEq, S>(
    m: DiffModel<M, S>,
    o: Option<DomItem<M>>,
    n: Option<DomItem<M>>,
    d: nat,
    refs: bool,
)
    requires
        walk_open_ok(m, o, n, d, refs),
    ensures
        patches_open_ok_if(walk(m, o, n).patches, refs),
        patch_nesting(walk(m, o, n).patches) == 0,
        walk(m, o, n).old_def == m.old_def,
        walk(m, o, n).new_def == m.new_def,
    decreases walk_measure(m, o, n),
{
    if o is None && n is None {
        assert(nesting(Seq::<DomItem<M>>::empty()) == 0);
    } else {
        let d2 = lemma_step_open_ok(m, o, n, d, refs);
        let (m2, o2, n2) = walk_step(m, o, n);
        lemma_walk_open_ok(m2, o2, n2, d2, refs);
    }
}

/// Diffing two well formed walks without keys, without references to keyed sub trees in the
/// new walk, whose attributes, inner html and event handlers (and, in the old walk, text nodes)
/// stand inside nodes, gives balanced patches: applying them never lacks an open node and
/// leaves none open.
pub proof fn law_diff_patches_balanced<M: PartialEq, S>(
    old: Seq<DomItem<M>>,
    new: Seq<DomItem<M>>,
    sto: Seq<S>,
)
    requires
        keyless(old),
        keyless(new),
        well_formed(old),
        well_formed(new),
        attached(old),
        attached(new),
        texts_inside(old),
        no_key_refs(new),
    ensures
        patches_balanced(diff_result(old, new, sto).0),
        diff_result(old, new, sto).1 == Map::<u64, Seq<Patch<M, S>>>::empty(),
{
    let (m1, o) = start(old, new, sto, true).pop_old();
    let (m2, n) = m1.pop_new();
    assert(rest_old(m2, o) =~= old);
    assert(rest_new(m2, n) =~= new);
    assert(patch_nesting(Seq::<Patch<M, S>>::empty()) == 0);
    lemma_walk_open_ok(m2, o, n, 0, false);
    law_diff_stores_one_entry_per_new_item(old, new, sto);
    let m = run(old, new, sto, true);
    assert(m.old_def =~= Seq::<(u64, Seq<DomItem<M>>, Seq<S>)>::empty());
    assert(m.new_def =~= Seq::<(u64, Seq<DomItem<M>>)>::empty());
}

} // verus!
