//! What the planning of a patch set promises as a whole.
use vstd::prelude::*;
use crate::vdom::{
    DomItem, attached, keyless, lemma_storage_count_push, nesting, no_key_refs, storage_count,
    well_formed,
};
use crate::patch::{
    Patch, no_key_patches, patch_nesting, patch_opens, patch_store_count, patch_stores,
    patches_balanced, works_on_node,
};
use crate::apply::{
    Child, NodeStackView, PlanState, Step, inserts_before, plan_from, plan_list, plan_on_node,
    plan_patch, pop_node, prepend_steps,
};
use crate::diff_model::{create_patch, diff_result};
use crate::diff_laws::{
    creations, law_diff_from_empty_creates, law_diff_patches_balanced,
    law_diff_stores_one_entry_per_new_item, lemma_well_formed_no_stray_up, texts_inside,
};

verus! {

/// A step of the walk only uses up keyed patch lists, and does not depend on the nesting bound
/// once the bound covers the keyed lists left.
proof fn lemma_patch_fuel<M, S>(p: Patch<M, S>, st: PlanState<M, S>, f1: nat, f2: nat)
    requires
        st.keyed.dom().finite(),
        st.keyed.dom().len() <= f1,
        st.keyed.dom().len() <= f2,
    ensures
        plan_patch(p, st, f1) == plan_patch(p, st, f2),
        plan_patch(p, st, f1) is Ok ==> plan_patch(p, st, f1)->Ok_0.0.keyed.dom().subset_of(
            st.keyed.dom(),
        ),
    decreases f1, 0int,
{
    if let Patch::ReferenceKey(key) = p {
        if st.keyed.contains_key(key) {
            let rest = st.keyed.remove(key);
            assert(rest.dom() =~= st.keyed.dom().remove(key));
            lemma_list_fuel(st.keyed[key], rest, (f1 - 1) as nat, (f2 - 1) as nat, st.next);
        }
    }
}

/// The walk over the rest of a patch list only uses up keyed patch lists, and does not depend
/// on the nesting bound once the bound covers the keyed lists left.
proof fn lemma_from_fuel<M, S>(
    ps: Seq<Patch<M, S>>,
    i: int,
    st: PlanState<M, S>,
    f1: nat,
    f2: nat,
)
    requires
        st.keyed.dom().finite(),
        st.keyed.dom().len() <= f1,
        st.keyed.dom().len() <= f2,
    ensures
        plan_from(ps, i, st, f1) == plan_from(ps, i, st, f2),
        plan_from(ps, i, st, f1) is Ok ==> plan_from(ps, i, st, f1)->Ok_0.keyed.dom().subset_of(
            st.keyed.dom(),
        ),
    decreases f1, ps.len() - i + 1,
{
    if 0 <= i < ps.len() {
        lemma_patch_fuel(ps[i], st, f1, f2);
        if let Ok((st1, s1)) = plan_patch(ps[i], st, f1) {
            vstd::set_lib::lemma_len_subset(st1.keyed.dom(), st.keyed.dom());
            lemma_from_fuel(ps, i + 1, st1, f1, f2);
        }
    }
}

/// The walk over a patch list only uses up keyed patch lists, and does not depend on the
/// nesting bound once the bound covers the keyed lists.
proof fn lemma_list_fuel<M, S>(
    ps: Seq<Patch<M, S>>,
    keyed: Map<u64, Seq<Patch<M, S>>>,
    f1: nat,
    f2: nat,
    next: nat,
)
    requires
        keyed.dom().finite(),
        keyed.dom().len() <= f1,
        keyed.dom().len() <= f2,
    ensures
        plan_list(ps, keyed, f1, next) == plan_list(ps, keyed, f2, next),
        plan_list(ps, keyed, f1, next) is Ok ==> plan_list(ps, keyed, f1, next)->Ok_0.keyed.dom().subset_of(
            keyed.dom(),
        ),
    decreases f1, ps.len() + 2,
{
    lemma_from_fuel(ps, 0, PlanState::start(keyed, next), f1, f2);
}

/// Each use of a keyed patch list removes it, so a nesting bound of the number of keyed lists
/// is as good as any larger one: the walk never runs out of it.
pub proof fn law_plan_bound_suffices<M, S>(
    ps: Seq<Patch<M, S>>,
    keyed: Map<u64, Seq<Patch<M, S>>>,
    fuel: nat,
    next: nat,
)
    requires
        keyed.dom().finite(),
        keyed.dom().len() <= fuel,
    ensures
        plan_list(ps, keyed, keyed.dom().len(), next) == plan_list(ps, keyed, fuel, next),
{
    lemma_list_fuel(ps, keyed, keyed.dom().len(), fuel, next);
}


/// Planning the creation patches of a walk, from its `j`-th item on, succeeds and stores one
/// entry per item that owns storage.
proof fn lemma_creations_plan<M, S>(s: Seq<DomItem<M>>, j: int, st: PlanState<M, S>, base: nat)
    requires
        0 <= j <= s.len(),
        well_formed(s),
        attached(s),
        no_key_refs(s),
        st.ns.stack.len() == nesting(s.take(j)),
        st.next == base + storage_count(s.take(j)),
    ensures
        plan_from(creations::<M, S>(s), j, st, 0) is Ok,
        plan_from(creations::<M, S>(s), j, st, 0)->Ok_0.next == base + storage_count(s),
    decreases s.len() - j,
{
    let ps = creations::<M, S>(s);
    if j < s.len() {
        let x = s[j];
        assert(ps[j] == create_patch::<M, S>(x));
        assert(s.take(j + 1) =~= s.take(j).push(x));
        assert(s.take(j + 1).drop_last() =~= s.take(j));
        lemma_storage_count_push(s.take(j), x);
        assert(nesting(s.take(j + 1)) >= 0);
        assert(!(x is Key));
        let r = plan_patch(ps[j], st, 0);
        assert(r is Ok);
        let st1 = r->Ok_0.0;
        assert(st1.ns.stack.len() == nesting(s.take(j + 1)));
        assert(st1.next == base + storage_count(s.take(j + 1)));
        lemma_creations_plan(s, j + 1, st1, base);
    } else {
        assert(s.take(j) =~= s);
    }
}

/// Rendering a walk for the first time: diffing it against nothing gives patches whose plan
/// succeeds and stores exactly as many entries as the next diff against the walk takes as its
/// storage.
pub proof fn law_first_render_stores_what_next_diff_takes<M: PartialEq, S>(
    new: Seq<DomItem<M>>,
    sto: Seq<S>,
)
    requires
        keyless(new),
        well_formed(new),
        attached(new),
        no_key_refs(new),
    ensures
        ({
            let (ps, keyed) = diff_result(Seq::<DomItem<M>>::empty(), new, sto);
            let planned = plan_list(ps, keyed, keyed.dom().len(), 0);
            &&& planned is Ok
            &&& planned->Ok_0.next == storage_count(new)
        }),
{
    lemma_well_formed_no_stray_up(new);
    law_diff_from_empty_creates(new, sto);
    let keyed = Map::<u64, Seq<Patch<M, S>>>::empty();
    assert(keyed.dom() =~= Set::<u64>::empty());
    assert(new.take(0) =~= Seq::<DomItem<M>>::empty());
    lemma_creations_plan(new, 0, PlanState::<M, S>::start(keyed, 0), 0);
}


/// Steps that store an entry in the new storage.
pub open spec fn stores_entry<M, S>(s: Step<M, S>) -> bool {
    ||| s is CreateElement
    ||| s is CreateText
    ||| s is CreateComponent
    ||| s is Keep
    ||| s is ReplaceText
    ||| s is UpdateComponent
    ||| s is MupdateComponent
    ||| s is MoveComponent
    ||| s is AddListener
    ||| s is StoreUp
}

/// The number of entries the steps store.
pub open spec fn stored_count<M, S>(steps: Seq<Step<M, S>>) -> nat
    decreases steps.len(),
{
    if steps.len() == 0 {
        0
    } else {
        stored_count(steps.drop_last()) + if stores_entry(steps.last()) {
            1nat
        } else {
            0nat
        }
    }
}

/// The child is held by an entry numbered below `n`.
pub open spec fn child_below(c: Child, n: nat) -> bool {
    match c {
        Child::Node(k) => k < n,
        Child::Nodes(k) => k < n,
    }
}

/// All the children are held by entries numbered below `n`.
pub open spec fn children_below(cs: Seq<Child>, n: nat) -> bool {
    forall|j: int| 0 <= j < cs.len() ==> child_below(#[trigger] cs[j], n)
}

/// Every node the step names is held by an entry numbered below `n`.
pub open spec fn refs_below<M, S>(s: Step<M, S>, n: nat) -> bool {
    match s {
        Step::RemoveText { parent, .. } => parent < n,
        Step::SetInnerHtml { node, .. } => node < n,
        Step::UnsetInnerHtml { node } => node < n,
        Step::SetAttribute { node, .. } => node < n,
        Step::SetProperty { node, .. } => node < n,
        Step::RemoveAttribute { node, .. } => node < n,
        Step::AddListener { node, .. } => node < n,
        Step::RemoveListener { node, .. } => node < n,
        Step::Insert { parent, child, before } => parent < n && child_below(child, n) && match before {
            Some(b) => b < n,
            None => true,
        },
        Step::InsertBeside { sibling, child } => sibling < n && child_below(child, n),
        _ => true,
    }
}

/// Every node a step names is held by an entry stored before the step, the entries being
/// numbered from `base` on in the order of the steps that store them.
pub open spec fn refers_back<M, S>(steps: Seq<Step<M, S>>, base: nat) -> bool {
    forall|j: int|
        0 <= j < steps.len() ==> refs_below(#[trigger] steps[j], base + stored_count(steps.take(j)))
}

/// Steps that store nothing and name only nodes below `n`.
pub open spec fn plain_below<M, S>(steps: Seq<Step<M, S>>, n: nat) -> bool {
    forall|j: int| 0 <= j < steps.len() ==> !stores_entry(#[trigger] steps[j]) && refs_below(steps[j], n)
}

/// The open nodes and the waiting children are held by entries numbered below `n`.
pub open spec fn stack_below(ns: NodeStackView, n: nat) -> bool {
    &&& forall|i: int| 0 <= i < ns.stack.len() ==> (#[trigger] ns.stack[i]).0 < n && children_below(ns.stack[i].1, n)
    &&& children_below(ns.pending, n)
}

/// What the walk keeps at every step: everything it holds names entries stored already.
pub open spec fn state_below<M, S>(st: PlanState<M, S>) -> bool {
    &&& stack_below(st.ns, st.next)
    &&& plain_below(st.deferred, st.next)
}

proof fn lemma_stored_count_concat<M, S>(a: Seq<Step<M, S>>, b: Seq<Step<M, S>>)
    ensures
        stored_count(a + b) == stored_count(a) + stored_count(b),
    decreases b.len(),
{
    if b.len() == 0 {
        assert(a + b =~= a);
    } else {
        lemma_stored_count_concat(a, b.drop_last());
        assert((a + b).drop_last() =~= a + b.drop_last());
        assert((a + b).last() == b.last());
    }
}

proof fn lemma_plain_stored<M, S>(steps: Seq<Step<M, S>>, n: nat)
    requires
        plain_below(steps, n),
    ensures
        stored_count(steps) == 0,
        refers_back(steps, n),
    decreases steps.len(),
{
    if steps.len() > 0 {
        lemma_plain_stored(steps.drop_last(), n);
    }
    assert forall|j: int| 0 <= j < steps.len() implies refs_below(
        #[trigger] steps[j],
        n + stored_count(steps.take(j)),
    ) by {
        lemma_plain_prefix(steps, j, n);
    }
}

proof fn lemma_plain_prefix<M, S>(steps: Seq<Step<M, S>>, j: int, n: nat)
    requires
        plain_below(steps, n),
        0 <= j <= steps.len(),
    ensures
        stored_count(steps.take(j)) == 0,
    decreases j,
{
    if j > 0 {
        assert(steps.take(j).drop_last() =~= steps.take(j - 1));
        lemma_plain_prefix(steps, j - 1, n);
    }
}

proof fn lemma_refers_back_concat<M, S>(a: Seq<Step<M, S>>, b: Seq<Step<M, S>>, base: nat)
    requires
        refers_back(a, base),
        refers_back(b, base + stored_count(a)),
    ensures
        refers_back(a + b, base),
{
    assert forall|j: int| 0 <= j < (a + b).len() implies refs_below(
        #[trigger] (a + b)[j],
        base + stored_count((a + b).take(j)),
    ) by {
        if j < a.len() {
            assert((a + b).take(j) =~= a.take(j));
            assert((a + b)[j] == a[j]);
        } else {
            let k = j - a.len();
            assert((a + b).take(j) =~= a + b.take(k));
            lemma_stored_count_concat(a, b.take(k));
            assert((a + b)[j] == b[k]);
        }
    }
}

proof fn lemma_children_below_mono(cs: Seq<Child>, n: nat, m: nat)
    requires
        children_below(cs, n),
        n <= m,
    ensures
        children_below(cs, m),
{
    assert forall|j: int| 0 <= j < cs.len() implies child_below(#[trigger] cs[j], m) by {
        assert(child_below(cs[j], n));
    }
}

proof fn lemma_state_below_mono<M, S>(st: PlanState<M, S>, m: nat)
    requires
        state_below(st),
        st.next <= m,
    ensures
        stack_below(st.ns, m),
        plain_below(st.deferred, m),
{
    assert forall|i: int| 0 <= i < st.ns.stack.len() implies (#[trigger] st.ns.stack[i]).0 < m
        && children_below(st.ns.stack[i].1, m) by {
        lemma_children_below_mono(st.ns.stack[i].1, st.next, m);
    }
    lemma_children_below_mono(st.ns.pending, st.next, m);
    assert forall|j: int| 0 <= j < st.deferred.len() implies !stores_entry(
        #[trigger] st.deferred[j],
    ) && refs_below(st.deferred[j], m) by {
        assert(refs_below(st.deferred[j], st.next));
    }
}

proof fn lemma_push_children_below(ns: NodeStackView, cs: Seq<Child>, n: nat)
    requires
        stack_below(ns, n),
        children_below(cs, n),
    ensures
        stack_below(ns.push_children(cs), n),
{
    let r = ns.push_children(cs);
    if ns.stack.len() > 0 {
        let top = ns.stack.last();
        assert(children_below(top.1, n)) by {
            assert(ns.stack[ns.stack.len() - 1] == top);
        }
        assert(children_below(top.1 + cs, n)) by {
            assert forall|j: int| 0 <= j < (top.1 + cs).len() implies child_below(
                #[trigger] (top.1 + cs)[j],
                n,
            ) by {
                if j < top.1.len() {
                    assert((top.1 + cs)[j] == top.1[j]);
                } else {
                    assert((top.1 + cs)[j] == cs[j - top.1.len()]);
                }
            }
        }
        assert forall|i: int| 0 <= i < r.stack.len() implies (#[trigger] r.stack[i]).0 < n
            && children_below(r.stack[i].1, n) by {
            if i < ns.stack.len() - 1 {
                assert(r.stack[i] == ns.stack[i]);
            }
        }
    } else {
        assert forall|j: int| 0 <= j < (ns.pending + cs).len() implies child_below(
            #[trigger] (ns.pending + cs)[j],
            n,
        ) by {
            if j < ns.pending.len() {
                assert((ns.pending + cs)[j] == ns.pending[j]);
            } else {
                assert((ns.pending + cs)[j] == cs[j - ns.pending.len()]);
            }
        }
    }
}

proof fn lemma_push_parent_below(ns: NodeStackView, k: usize, n: nat)
    requires
        stack_below(ns, n),
        k < n,
    ensures
        stack_below(ns.push_parent(k), n),
{
    let r = ns.push_parent(k);
    assert forall|i: int| 0 <= i < r.stack.len() implies (#[trigger] r.stack[i]).0 < n
        && children_below(r.stack[i].1, n) by {
        if i < ns.stack.len() {
            assert(r.stack[i] == ns.stack[i]);
        } else {
            assert(r.stack[i] == (k, Seq::<Child>::empty()));
        }
    }
}

proof fn lemma_inserts_below<M, S>(ns: NodeStackView, before: Option<usize>, n: nat)
    requires
        stack_below(ns, n),
        match before {
            Some(b) => b < n,
            None => true,
        },
        inserts_before::<M, S>(ns, before) is Some,
    ensures
        ({
            let (ns1, ins) = inserts_before::<M, S>(ns, before).unwrap();
            &&& stack_below(ns1, n)
            &&& plain_below(ins, n)
            &&& ns1.stack.len() == ns.stack.len()
        }),
{
    let (ns1, ins) = inserts_before::<M, S>(ns, before).unwrap();
    if ns.stack.len() > 0 {
        let top = ns.stack.last();
        assert(ns.stack[ns.stack.len() - 1] == top);
        assert(children_below(top.1, n));
        assert forall|j: int| 0 <= j < ins.len() implies !stores_entry(#[trigger] ins[j])
            && refs_below(ins[j], n) by {
            assert(child_below(top.1[j], n));
        }
        assert forall|i: int| 0 <= i < ns1.stack.len() implies (#[trigger] ns1.stack[i]).0 < n
            && children_below(ns1.stack[i].1, n) by {
            if i < ns.stack.len() - 1 {
                assert(ns1.stack[i] == ns.stack[i]);
            } else {
                assert(ns1.stack[i] == (top.0, Seq::<Child>::empty()));
            }
        }
    } else {
        assert forall|j: int| 0 <= j < ins.len() implies !stores_entry(#[trigger] ins[j])
            && refs_below(ins[j], n) by {
            assert(child_below(ns.pending[j], n));
        }
    }
}

/// The number of stored entries only grows along a step of the walk.
proof fn lemma_patch_next_grows<M, S>(p: Patch<M, S>, st: PlanState<M, S>, fuel: nat)
    ensures
        plan_patch(p, st, fuel) is Ok ==> plan_patch(p, st, fuel)->Ok_0.0.next >= st.next,
    decreases fuel, 0int,
{
    if let Patch::ReferenceKey(key) = p {
        if st.keyed.contains_key(key) && fuel > 0 {
            lemma_list_next_grows(st.keyed[key], st.keyed.remove(key), (fuel - 1) as nat, st.next);
        }
    }
}

/// The number of stored entries only grows along the walk over the rest of a patch list.
proof fn lemma_from_next_grows<M, S>(ps: Seq<Patch<M, S>>, i: int, st: PlanState<M, S>, fuel: nat)
    ensures
        plan_from(ps, i, st, fuel) is Ok ==> plan_from(ps, i, st, fuel)->Ok_0.next >= st.next,
    decreases fuel, ps.len() - i + 1,
{
    if 0 <= i < ps.len() {
        lemma_patch_next_grows(ps[i], st, fuel);
        if let Ok((st1, s1)) = plan_patch(ps[i], st, fuel) {
            lemma_from_next_grows(ps, i + 1, st1, fuel);
        }
    }
}

/// The number of stored entries only grows along the walk over a patch list.
proof fn lemma_list_next_grows<M, S>(
    ps: Seq<Patch<M, S>>,
    keyed: Map<u64, Seq<Patch<M, S>>>,
    fuel: nat,
    next: nat,
)
    ensures
        plan_list(ps, keyed, fuel, next) is Ok ==> plan_list(ps, keyed, fuel, next)->Ok_0.next >= next,
    decreases fuel, ps.len() + 2,
{
    lemma_from_next_grows(ps, 0, PlanState::<M, S>::start(keyed, next), fuel);
}

/// One step of the walk keeps everything it holds below the entries stored, names only
/// entries stored before each step, and counts the entries it stores.
proof fn lemma_patch_refers_back<M, S>(p: Patch<M, S>, st: PlanState<M, S>, fuel: nat)
    requires
        state_below(st),
    ensures
        plan_patch(p, st, fuel) is Ok && plan_patch(p, st, fuel)->Ok_0.0.next <= usize::MAX ==> ({
            let (st1, s1) = plan_patch(p, st, fuel)->Ok_0;
            &&& state_below(st1)
            &&& st1.next == st.next + stored_count(s1)
            &&& refers_back(s1, st.next)
        }),
    decreases fuel, 0int,
{
    lemma_patch_next_grows(p, st, fuel);
    if plan_patch(p, st, fuel) is Ok && plan_patch(p, st, fuel)->Ok_0.0.next <= usize::MAX {
        let (st1, s1) = plan_patch(p, st, fuel)->Ok_0;
        let k = st.next as usize;
        assert(k == st.next);
        if works_on_node(p) {
            let n = st.ns.last().unwrap();
            assert(st.ns.stack[st.ns.stack.len() - 1].0 == n);
            assert(plan_on_node(p, st, n) == (st1, s1));
            if let Patch::SetAttribute { name, value } = p {
                if crate::apply::is_deferred_attr(name@) {
                    assert(s1 =~= Seq::<Step<M, S>>::empty());
                    assert forall|j: int| 0 <= j < st1.deferred.len() implies !stores_entry(
                        #[trigger] st1.deferred[j],
                    ) && refs_below(st1.deferred[j], st1.next) by {
                        if j < st.deferred.len() {
                            assert(st1.deferred[j] == st.deferred[j]);
                        }
                    }
                } else {
                    assert(s1.drop_last() =~= Seq::<Step<M, S>>::empty());
                }
            } else if p is AddListener {
                assert(s1.drop_last() =~= Seq::<Step<M, S>>::empty());
                lemma_state_below_mono(st, st.next + 1);
            } else {
                assert(s1.drop_last() =~= Seq::<Step<M, S>>::empty());
            }
            assert(s1.len() > 0 ==> s1.take(0) =~= Seq::<Step<M, S>>::empty());
        } else {
            match p {
                Patch::ReferenceKey(key) => {
                    let sub = st.keyed[key];
                    lemma_list_refers_back(sub, st.keyed.remove(key), (fuel - 1) as nat, st.next);
                    let o = plan_list(sub, st.keyed.remove(key), (fuel - 1) as nat, st.next)->Ok_0;
                    lemma_state_below_mono(st, o.next);
                    lemma_push_children_below(st.ns, o.pending, o.next);
                },
                Patch::CreateElement { .. } | Patch::MoveElement(_) | Patch::CreateText { .. }
                | Patch::CreateComponent { .. } | Patch::MoveComponent(_)
                | Patch::MupdateComponent { .. } => {
                    let c = if p is CreateComponent || p is MoveComponent || p is MupdateComponent {
                        Child::Nodes(k)
                    } else {
                        Child::Node(k)
                    };
                    assert(st1 == st.open_child(c));
                    lemma_state_below_mono(st, st.next + 1);
                    assert(children_below(seq![c], st.next + 1));
                    lemma_push_children_below(st.ns, seq![c], st.next + 1);
                    lemma_push_parent_below(st.ns.push_child(c), k, st.next + 1);
                    assert(s1.drop_last() =~= Seq::<Step<M, S>>::empty());
                    assert(s1.take(0) =~= Seq::<Step<M, S>>::empty());
                    assert(stored_count(Seq::<Step<M, S>>::empty()) == 0);
                },
                Patch::CopyElement(_) | Patch::ReplaceText { .. } | Patch::CopyText(_)
                | Patch::CopyComponent(_) | Patch::UpdateComponent { .. } => {
                    let step = s1[0];
                    assert(st.open_in_place(step) == (st1, s1));
                    lemma_state_below_mono(st, st.next + 1);
                    lemma_inserts_below::<M, S>(st.ns, Some(k), st.next + 1);
                    let (ns1, ins) = inserts_before::<M, S>(st.ns, Some(k)).unwrap();
                    lemma_push_parent_below(ns1, k, st.next + 1);
                    lemma_plain_stored(ins, st.next + 1);
                    assert(refers_back(seq![step], st.next)) by {
                        assert(seq![step].take(0) =~= Seq::<Step<M, S>>::empty());
                    }
                    assert(stored_count(seq![step]) == 1) by {
                        assert(seq![step].drop_last() =~= Seq::<Step<M, S>>::empty());
                    }
                    lemma_refers_back_concat(seq![step], ins, st.next);
                    lemma_stored_count_concat(seq![step], ins);
                },
                Patch::Up => {
                    let (ns1, ins) = pop_node::<M, S>(st.ns).unwrap();
                    lemma_inserts_below::<M, S>(st.ns, None, st.next);
                    let (ns0, ins0) = inserts_before::<M, S>(st.ns, None).unwrap();
                    assert(ins == ins0);
                    lemma_plain_stored(ins, st.next);
                    assert(s1 == ins.push(Step::<M, S>::StoreUp));
                    assert(s1.drop_last() =~= ins);
                    assert(stack_below(ns1, st.next + 1)) by {
                        assert forall|i: int| 0 <= i < ns1.stack.len() implies (
                        #[trigger] ns1.stack[i]).0 < st.next + 1 && children_below(
                            ns1.stack[i].1,
                            st.next + 1,
                        ) by {
                            assert(ns1.stack[i] == ns0.stack[i]);
                            lemma_children_below_mono(ns0.stack[i].1, st.next, st.next + 1);
                        }
                        lemma_children_below_mono(ns1.pending, st.next, st.next + 1);
                    }
                    lemma_state_below_mono(st, st.next + 1);
                    assert(refers_back(s1, st.next)) by {
                        assert forall|j: int| 0 <= j < s1.len() implies refs_below(
                            #[trigger] s1[j],
                            st.next + stored_count(s1.take(j)),
                        ) by {
                            if j < ins.len() {
                                assert(s1.take(j) =~= ins.take(j));
                                assert(s1[j] == ins[j]);
                            }
                        }
                    }
                },
                Patch::CopyListener(_) => {
                    lemma_state_below_mono(st, st.next + 1);
                    assert(s1.drop_last() =~= Seq::<Step<M, S>>::empty());
                },
                _ => {
                    assert(s1.drop_last() =~= Seq::<Step<M, S>>::empty());
                    assert(s1.take(0) =~= Seq::<Step<M, S>>::empty());
                },
            }
        }
    }
}

/// The walk over the rest of a patch list names only entries stored before each step, counts
/// the entries it stores, and leaves waiting only children already stored.
proof fn lemma_from_refers_back<M, S>(ps: Seq<Patch<M, S>>, i: int, st: PlanState<M, S>, fuel: nat)
    requires
        state_below(st),
    ensures
        plan_from(ps, i, st, fuel) is Ok && plan_from(ps, i, st, fuel)->Ok_0.next <= usize::MAX ==> ({
            let o = plan_from(ps, i, st, fuel)->Ok_0;
            &&& o.next == st.next + stored_count(o.steps)
            &&& refers_back(o.steps, st.next)
            &&& children_below(o.pending, o.next)
        }),
    decreases fuel, ps.len() - i + 1,
{
    if 0 <= i < ps.len() {
        lemma_patch_refers_back(ps[i], st, fuel);
        if let Ok((st1, s1)) = plan_patch(ps[i], st, fuel) {
            lemma_from_next_grows(ps, i + 1, st1, fuel);
            lemma_from_refers_back(ps, i + 1, st1, fuel);
            if let Ok(o) = plan_from(ps, i + 1, st1, fuel) {
                assert(plan_from(ps, i, st, fuel) == prepend_steps(s1, plan_from(ps, i + 1, st1, fuel)));
                assert(plan_from(ps, i, st, fuel)->Ok_0.next == o.next);
                assert(st1.next <= o.next);
                lemma_stored_count_concat(s1, o.steps);
                if o.next <= usize::MAX {
                    lemma_refers_back_concat(s1, o.steps, st.next);
                }
            }
        }
    } else {
        if plan_from(ps, i, st, fuel) is Ok {
            lemma_plain_stored(st.deferred, st.next);
        }
    }
}

/// The walk over a patch list names only entries stored before each step, counts the entries
/// it stores, and leaves waiting only children already stored.
proof fn lemma_list_refers_back<M, S>(
    ps: Seq<Patch<M, S>>,
    keyed: Map<u64, Seq<Patch<M, S>>>,
    fuel: nat,
    next: nat,
)
    ensures
        plan_list(ps, keyed, fuel, next) is Ok && plan_list(ps, keyed, fuel, next)->Ok_0.next
            <= usize::MAX ==> ({
            let o = plan_list(ps, keyed, fuel, next)->Ok_0;
            &&& o.next == next + stored_count(o.steps)
            &&& refers_back(o.steps, next)
            &&& children_below(o.pending, o.next)
        }),
    decreases fuel, ps.len() + 2,
{
    let st = PlanState::<M, S>::start(keyed, next);
    lemma_from_refers_back(ps, 0, st, fuel);
}

/// Applying a planned patch set only ever works on nodes that are there: every node a step
/// names is held by an entry of the new storage stored by an earlier step, the children left
/// for the parent are held by stored entries, and the steps store exactly the entries the
/// walk counts.
pub proof fn law_plan_names_only_stored_nodes<M, S>(
    ps: Seq<Patch<M, S>>,
    keyed: Map<u64, Seq<Patch<M, S>>>,
    fuel: nat,
)
    ensures
        plan_list(ps, keyed, fuel, 0) is Ok && plan_list(ps, keyed, fuel, 0)->Ok_0.next
            <= usize::MAX ==> ({
            let o = plan_list(ps, keyed, fuel, 0)->Ok_0;
            &&& refers_back(o.steps, 0)
            &&& children_below(o.pending, stored_count(o.steps))
            &&& o.next == stored_count(o.steps)
        }),
{
    lemma_list_refers_back(ps, keyed, fuel, 0);
}



/// A patch other than a reference to a keyed list stores one entry exactly when it is a
/// storing patch, and leaves the keyed lists alone; with no keyed list left, a reference to one
/// fails.
pub(crate) proof fn lemma_patch_counts<M, S>(p: Patch<M, S>, st: PlanState<M, S>, fuel: nat)
    requires
        !(p is ReferenceKey) || st.keyed == Map::<u64, Seq<Patch<M, S>>>::empty(),
    ensures
        plan_patch(p, st, fuel) is Ok ==> {
            &&& !(p is ReferenceKey)
            &&& plan_patch(p, st, fuel)->Ok_0.0.next == st.next + if patch_stores(p) {
                1nat
            } else {
                0nat
            }
            &&& plan_patch(p, st, fuel)->Ok_0.0.keyed == st.keyed
        },
{
    if plan_patch(p, st, fuel) is Ok && works_on_node(p) {
        let n = st.ns.last().unwrap();
        assert(plan_patch(p, st, fuel)->Ok_0 == plan_on_node(p, st, n));
    }
}

/// Along a patch list without references to keyed lists, or with no keyed list to refer to,
/// the walk stores one entry per storing patch.
proof fn lemma_from_counts<M, S>(ps: Seq<Patch<M, S>>, i: int, st: PlanState<M, S>, fuel: nat)
    requires
        0 <= i <= ps.len(),
        no_key_patches(ps) || st.keyed == Map::<u64, Seq<Patch<M, S>>>::empty(),
    ensures
        plan_from(ps, i, st, fuel) is Ok ==> plan_from(ps, i, st, fuel)->Ok_0.next == st.next
            + patch_store_count(ps.skip(i)),
    decreases ps.len() - i,
{
    if i < ps.len() {
        assert(ps.skip(i).drop_first() =~= ps.skip(i + 1));
        assert(ps.skip(i)[0] == ps[i]);
        lemma_patch_counts(ps[i], st, fuel);
        if let Ok((st1, s1)) = plan_patch(ps[i], st, fuel) {
            lemma_from_counts(ps, i + 1, st1, fuel);
        }
    } else {
        assert(ps.skip(i) =~= Seq::<Patch<M, S>>::empty());
    }
}

/// Applying a patch list without references to keyed lists, or with no keyed list to refer to,
/// stores one entry per storing patch.
pub proof fn law_plan_stores_one_entry_per_storing_patch<M, S>(
    ps: Seq<Patch<M, S>>,
    keyed: Map<u64, Seq<Patch<M, S>>>,
    fuel: nat,
    next: nat,
)
    requires
        no_key_patches(ps) || keyed == Map::<u64, Seq<Patch<M, S>>>::empty(),
    ensures
        plan_list(ps, keyed, fuel, next) is Ok ==> plan_list(ps, keyed, fuel, next)->Ok_0.next
            == next + patch_store_count(ps),
{
    lemma_from_counts(ps, 0, PlanState::<M, S>::start(keyed, next), fuel);
    assert(ps.skip(0) =~= ps);
}


/// Re-rendering a virtual dom without keys: when the plan of the diff between two well formed
/// walks succeeds, it builds exactly the storage that the next diff, against the new walk,
/// takes: one entry per node, listener and node end of the new walk.
pub proof fn law_render_stores_what_next_diff_takes<M: PartialEq, S>(
    old: Seq<DomItem<M>>,
    new: Seq<DomItem<M>>,
    sto: Seq<S>,
)
    requires
        keyless(old),
        keyless(new),
        well_formed(old),
        well_formed(new),
    ensures
        ({
            let (ps, keyed) = diff_result(old, new, sto);
            let planned = plan_list(ps, keyed, keyed.dom().len(), 0);
            planned is Ok ==> planned->Ok_0.next == storage_count(new)
        }),
{
    law_diff_stores_one_entry_per_new_item(old, new, sto);
    let (ps, keyed) = diff_result(old, new, sto);
    law_plan_stores_one_entry_per_storing_patch(ps, keyed, keyed.dom().len(), 0);
}


/// Along a balanced patch list, the walk keeps one open node per node the patches left open,
/// and does not fail.
proof fn lemma_balanced_plan<M, S>(ps: Seq<Patch<M, S>>, i: int, st: PlanState<M, S>, fuel: nat)
    requires
        0 <= i <= ps.len(),
        patches_balanced(ps),
        st.ns.stack.len() == patch_nesting(ps.take(i)),
    ensures
        plan_from(ps, i, st, fuel) is Ok,
    decreases ps.len() - i,
{
    if i < ps.len() {
        let p = ps[i];
        assert(ps.take(i + 1).drop_last() =~= ps.take(i));
        assert(ps.take(i + 1).last() == p);
        assert(!(p is ReferenceKey));
        if works_on_node(p) || p is Up {
            assert(patch_nesting(ps.take(i)) > 0);
        }
        let r = plan_patch(p, st, fuel);
        if works_on_node(p) {
            let n = st.ns.last().unwrap();
            assert(r == Ok::<(PlanState<M, S>, Seq<Step<M, S>>), crate::apply::PlanError>(
                plan_on_node(p, st, n),
            ));
        } else if patch_opens(p) {
            let k = st.next as usize;
            if p is CopyElement || p is ReplaceText || p is CopyText || p is CopyComponent
                || p is UpdateComponent {
                let (ns1, ins) = inserts_before::<M, S>(st.ns, Some(k)).unwrap();
                assert(ns1.stack.len() == st.ns.stack.len());
            }
        }
        assert(r is Ok);
        let st1 = r->Ok_0.0;
        assert(st1.ns.stack.len() == patch_nesting(ps.take(i + 1)));
        lemma_balanced_plan(ps, i + 1, st1, fuel);
    } else {
        assert(ps.take(i) =~= ps);
    }
}

/// A balanced patch list always plans: no open node is ever missing, and none is left open.
pub proof fn law_balanced_patches_plan<M, S>(
    ps: Seq<Patch<M, S>>,
    keyed: Map<u64, Seq<Patch<M, S>>>,
    fuel: nat,
    next: nat,
)
    requires
        patches_balanced(ps),
    ensures
        plan_list(ps, keyed, fuel, next) is Ok,
{
    assert(ps.take(0) =~= Seq::<Patch<M, S>>::empty());
    lemma_balanced_plan(ps, 0, PlanState::<M, S>::start(keyed, next), fuel);
}


/// Re-rendering a virtual dom without keys: the diff between two well formed walks, whose
/// attributes, inner html and event handlers stand inside nodes, whose new walk refers to no
/// keyed sub tree and whose old walk has no text node at the top level, always plans, and
/// builds exactly the storage that the next diff, against the new walk, takes.
pub proof fn law_render_plans_and_stores_what_next_diff_takes<M: PartialEq, S>(
    old: Seq<DomItem<M>>,
    new: Seq<DomItem<M>>,
    sto: Seq<S>,
)
    requires
        keyless(old),
        keyless(new),
        well_formed(old),
        well_formed(new),
        attached(old),
        attached(new),
        texts_inside(old),
        no_key_refs(new),
    ensures
        ({
            let (ps, keyed) = diff_result(old, new, sto);
            let planned = plan_list(ps, keyed, keyed.dom().len(), 0);
            &&& planned is Ok
            &&& planned->Ok_0.next == storage_count(new)
        }),
{
    law_diff_patches_balanced(old, new, sto);
    law_render_stores_what_next_diff_takes(old, new, sto);
    let (ps, keyed) = diff_result(old, new, sto);
    law_balanced_patches_plan(ps, keyed, keyed.dom().len(), 0);
}

} // verus!
