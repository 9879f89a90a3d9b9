//! What rendering a virtual dom builds: for a first render, the tree the walk describes; for a
//! re-render of an unchanged walk, the tree as it was.
use vstd::prelude::*;
use vstd::std_specs::cmp::PartialEqSpec;
use crate::vdom::{
    DomItem, attached, depth_change, keyless, lemma_storage_count_concat, lemma_storage_count_push,
    nesting, no_key_refs, opens_node, storage_count, uses_storage, well_formed,
};
use crate::patch::{Patch, all_noop, is_noop_patch};
use crate::apply::{
    Child, NodeStackView, PlanState, Step, inserts_before, is_deferred_attr, plan_from, plan_list,
    plan_on_node, plan_patch, pop_node,
};
use crate::diff_model::{create_patch, diff_result};
use crate::diff_laws::{
    carry_over, creations, law_diff_from_empty_creates, law_diff_identical_carries_over,
    lemma_well_formed_no_stray_up, no_special_attrs, reflexive_messages,
};
use crate::apply::{PlanOut, PlanError, finish_list, prepend_steps};
use crate::diff_model::{DiffModel, Match, compare, match_of, walk, walk_step, start, run};
use crate::diff_laws::{rest_new, rest_old};

verus! {

/// The positions of the nodes left open at the end of the walk `t`, outermost first.
pub open spec fn open_nodes<M>(t: Seq<DomItem<M>>) -> Seq<int>
    decreases t.len(),
{
    if t.len() == 0 {
        seq![]
    } else {
        let st = open_nodes(t.drop_last());
        if opens_node(t.last()) {
            st.push(t.len() - 1)
        } else if t.last() is Up {
            st.drop_last()
        } else {
            st
        }
    }
}

/// The innermost node open before position `i` of the walk `s`, or -1 at the top level.
pub open spec fn parent_of<M>(s: Seq<DomItem<M>>, i: int) -> int {
    let st = open_nodes(s.take(i));
    if st.len() > 0 {
        st.last()
    } else {
        -1
    }
}

/// The storage entry of the item at position `j` of the walk `s`: the number of entries stored
/// before it.
pub open spec fn entry_at<M>(s: Seq<DomItem<M>>, j: int) -> nat {
    storage_count(s.take(j))
}

/// What the node at position `j` of the walk `s` is to its parent.
pub open spec fn child_at<M>(s: Seq<DomItem<M>>, j: int) -> Child {
    if s[j] is Component {
        Child::Nodes(entry_at(s, j) as usize)
    } else {
        Child::Node(entry_at(s, j) as usize)
    }
}

/// The children of the node at position `p` of the walk `s` (of the top level, for -1) among
/// the positions `a` to `b`, in order.
pub open spec fn kids_between<M>(s: Seq<DomItem<M>>, p: int, a: int, b: int) -> Seq<Child>
    decreases b - a,
{
    if b <= a {
        seq![]
    } else {
        kids_between(s, p, a, b - 1) + if opens_node(s[b - 1]) && parent_of(s, b - 1) == p {
            seq![child_at(s, b - 1)]
        } else {
            seq![]
        }
    }
}

/// The children of the node at position `p` of the walk `s` (of the top level, for -1), in
/// order.
pub open spec fn children_in_walk<M>(s: Seq<DomItem<M>>, p: int) -> Seq<Child> {
    kids_between(s, p, p + 1, s.len() as int)
}

/// The children the steps attach to the node of entry `e`, in order.
pub open spec fn inserted_into<M, S>(steps: Seq<Step<M, S>>, e: usize) -> Seq<Child>
    decreases steps.len(),
{
    if steps.len() == 0 {
        seq![]
    } else {
        let rest = inserted_into(steps.drop_first(), e);
        match steps[0] {
            Step::Insert { parent, child, .. } => if parent == e {
                seq![child] + rest
            } else {
                rest
            },
            _ => rest,
        }
    }
}

/// Every insertion of the steps attaches a child at the end of its parent.
pub open spec fn appends_only<M, S>(steps: Seq<Step<M, S>>) -> bool {
    forall|i: int|
        0 <= i < steps.len() ==> match #[trigger] steps[i] {
            Step::Insert { before, .. } => before is None,
            Step::InsertBeside { .. } => false,
            _ => true,
        }
}

proof fn lemma_inserted_into_concat<M, S>(a: Seq<Step<M, S>>, b: Seq<Step<M, S>>, e: usize)
    ensures
        inserted_into(a + b, e) == inserted_into(a, e) + inserted_into(b, e),
    decreases a.len(),
{
    if a.len() == 0 {
        assert(a + b =~= b);
        assert(Seq::<Child>::empty() + inserted_into(b, e) =~= inserted_into(b, e));
    } else {
        lemma_inserted_into_concat(a.drop_first(), b, e);
        assert((a + b).drop_first() =~= a.drop_first() + b);
        assert((a + b)[0] == a[0]);
        match a[0] {
            Step::Insert { parent, child, .. } => if parent == e {
                assert(seq![child] + (inserted_into(a.drop_first(), e) + inserted_into(b, e))
                    =~= (seq![child] + inserted_into(a.drop_first(), e)) + inserted_into(b, e));
            },
            _ => {},
        }
    }
}

/// The positions of the open nodes are positions of nodes before the end, outermost first, one
/// per level of nesting.
proof fn lemma_open_nodes_shape<M>(t: Seq<DomItem<M>>)
    requires
        forall|k: int| 0 <= k <= t.len() ==> #[trigger] nesting(t.take(k)) >= 0,
    ensures
        open_nodes(t).len() == nesting(t),
        forall|l: int|
            0 <= l < open_nodes(t).len() ==> 0 <= #[trigger] open_nodes(t)[l] < t.len() && opens_node(
                t[open_nodes(t)[l]],
            ),
        forall|l: int, m: int|
            0 <= l < m < open_nodes(t).len() ==> #[trigger] open_nodes(t)[l] < #[trigger] open_nodes(
                t,
            )[m],
    decreases t.len(),
{
    if t.len() > 0 {
        let u = t.drop_last();
        assert forall|k: int| 0 <= k <= u.len() implies #[trigger] nesting(u.take(k)) >= 0 by {
            assert(u.take(k) =~= t.take(k));
        }
        lemma_open_nodes_shape(u);
        assert(t.take(t.len() as int) =~= t);
        assert(nesting(t) >= 0);
        let a = open_nodes(u);
        let b = open_nodes(t);
        if opens_node(t.last()) {
            assert(b == a.push(t.len() - 1));
        } else if t.last() is Up {
            assert(a.len() >= 1);
            assert(b == a.drop_last());
        } else {
            assert(b == a);
        }
        assert forall|l: int| 0 <= l < b.len() implies 0 <= #[trigger] b[l] < t.len() && opens_node(
            t[b[l]],
        ) by {
            if l < a.len() {
                assert(b[l] == a[l]);
                assert(t[a[l]] == u[a[l]]);
            } else {
                assert(b[l] == t.len() - 1);
            }
        }
        assert forall|l: int, m: int| 0 <= l < m < b.len() implies #[trigger] b[l] < #[trigger] b[m] by {
            if m < a.len() {
                assert(b[l] == a[l]);
                assert(b[m] == a[m]);
            } else {
                assert(b[l] == a[l]);
            }
        }
    }
}

/// Entries grow along the walk: a node's entry comes before that of every later item.
proof fn lemma_entry_grows<M>(s: Seq<DomItem<M>>, p: int, q: int)
    requires
        0 <= p < q <= s.len(),
        opens_node(s[p]),
    ensures
        entry_at(s, p) < entry_at(s, q),
{
    assert(s.take(q) =~= s.take(p) + s.subrange(p, q));
    lemma_storage_count_concat(s.take(p), s.subrange(p, q));
    assert(s.subrange(p, q)[0] == s[p]);
}

/// After position `j`, the open nodes are open nodes at `j` or nodes opened since.
proof fn lemma_open_nodes_later<M>(s: Seq<DomItem<M>>, j: int, i: int)
    requires
        0 <= j <= i <= s.len(),
        forall|k: int| 0 <= k <= s.len() ==> #[trigger] nesting(s.take(k)) >= 0,
    ensures
        forall|x: int|
            #[trigger] open_nodes(s.take(i)).contains(x) ==> open_nodes(s.take(j)).contains(x) || x
                >= j,
    decreases i - j,
{
    if i > j {
        lemma_open_nodes_later(s, j, i - 1);
        let t = s.take(i);
        let u = s.take(i - 1);
        assert(t.drop_last() =~= u);
        assert forall|k: int| 0 <= k <= u.len() implies #[trigger] nesting(u.take(k)) >= 0 by {
            assert(u.take(k) =~= s.take(k));
        }
        assert forall|k: int| 0 <= k <= t.len() implies #[trigger] nesting(t.take(k)) >= 0 by {
            assert(t.take(k) =~= s.take(k));
        }
        lemma_open_nodes_shape(u);
        lemma_open_nodes_shape(t);
        let a = open_nodes(u);
        let b = open_nodes(t);
        assert forall|x: int| #[trigger] b.contains(x) implies open_nodes(s.take(j)).contains(x)
            || x >= j by {
            let l = choose|l: int| 0 <= l < b.len() && b[l] == x;
            if opens_node(t.last()) {
                if l < a.len() {
                    assert(b[l] == a[l]);
                    assert(a.contains(x));
                }
            } else if t.last() is Up {
                assert(b == a.drop_last());
                assert(b[l] == a[l]);
                assert(a.contains(x));
            } else {
                assert(a.contains(x));
            }
        }
    }
}


/// The children of a node closed before position `j` do not change after it.
proof fn lemma_kids_closed<M>(s: Seq<DomItem<M>>, q: int, j: int, b: int)
    requires
        0 <= q < j <= b <= s.len(),
        forall|k: int| 0 <= k <= s.len() ==> #[trigger] nesting(s.take(k)) >= 0,
        !open_nodes(s.take(j)).contains(q),
    ensures
        kids_between(s, q, q + 1, b) == kids_between(s, q, q + 1, j),
    decreases b - j,
{
    if b > j {
        lemma_kids_closed(s, q, j, b - 1);
        lemma_open_nodes_later(s, j, b - 1);
        let on = open_nodes(s.take(b - 1));
        if on.len() > 0 {
            assert(on.contains(on.last()));
        }
        assert(parent_of(s, b - 1) != q);
        assert(kids_between(s, q, q + 1, b) =~= kids_between(s, q, q + 1, b - 1));
    }
}

/// The children inserted by the insertions of a list of waiting children into the node of
/// entry `e0`, followed by a stored node end.
proof fn lemma_inserted_by_pop<M, S>(steps: Seq<Step<M, S>>, kids: Seq<Child>, e0: usize, e: usize)
    requires
        steps.len() == kids.len() + 1,
        forall|i: int|
            0 <= i < kids.len() ==> #[trigger] steps[i] == (Step::<M, S>::Insert {
                parent: e0,
                child: kids[i],
                before: None,
            }),
        steps[kids.len() as int] == Step::<M, S>::StoreUp,
    ensures
        inserted_into(steps, e) == if e == e0 {
            kids
        } else {
            Seq::<Child>::empty()
        },
    decreases kids.len(),
{
    if kids.len() == 0 {
        assert(steps.drop_first() =~= Seq::<Step<M, S>>::empty());
        assert(steps[0] == Step::<M, S>::StoreUp);
        assert(inserted_into(steps.drop_first(), e) == Seq::<Child>::empty());
        assert(kids =~= Seq::<Child>::empty());
    } else {
        let rest = steps.drop_first();
        assert forall|i: int| 0 <= i < kids.drop_first().len() implies #[trigger] rest[i] == (
        Step::<M, S>::Insert { parent: e0, child: kids.drop_first()[i], before: None }) by {
            assert(rest[i] == steps[i + 1]);
        }
        assert(rest[kids.drop_first().len() as int] == steps[kids.len() as int]);
        lemma_inserted_by_pop(rest, kids.drop_first(), e0, e);
        assert(steps[0] == (Step::<M, S>::Insert { parent: e0, child: kids[0], before: None }));
        if e == e0 {
            assert(seq![kids[0]] + kids.drop_first() =~= kids);
        }
    }
}

/// Steps that insert nothing.
pub open spec fn no_inserts<M, S>(steps: Seq<Step<M, S>>) -> bool {
    forall|i: int| 0 <= i < steps.len() ==> !(#[trigger] steps[i] is Insert) && !(
    steps[i] is InsertBeside)
}

proof fn lemma_no_inserts<M, S>(steps: Seq<Step<M, S>>, e: usize)
    requires
        no_inserts(steps),
    ensures
        inserted_into(steps, e) == Seq::<Child>::empty(),
        appends_only(steps),
    decreases steps.len(),
{
    if steps.len() > 0 {
        assert forall|i: int| 0 <= i < steps.drop_first().len() implies !(
        #[trigger] steps.drop_first()[i] is Insert) && !(steps.drop_first()[i] is InsertBeside) by {
            assert(steps.drop_first()[i] == steps[i + 1]);
        }
        lemma_no_inserts(steps.drop_first(), e);
        assert(!(steps[0] is Insert));
    }
}

proof fn lemma_appends_only_concat<M, S>(a: Seq<Step<M, S>>, b: Seq<Step<M, S>>)
    requires
        appends_only(a),
        appends_only(b),
    ensures
        appends_only(a + b),
{
    assert forall|i: int| 0 <= i < (a + b).len() implies match #[trigger] (a + b)[i] {
        Step::Insert { before, .. } => before is None,
        Step::InsertBeside { .. } => false,
        _ => true,
    } by {
        if i < a.len() {
            assert((a + b)[i] == a[i]);
        } else {
            assert((a + b)[i] == b[i - a.len()]);
        }
    }
}

/// The stack of open nodes of the plan at position `j` of the walk `s`: one level per open
/// node, with its entry and its children so far, and the top level children so far.
pub open spec fn stack_matches<M>(s: Seq<DomItem<M>>, j: int, ns: NodeStackView) -> bool {
    let on = open_nodes(s.take(j));
    &&& ns.stack.len() == on.len()
    &&& forall|l: int|
        0 <= l < on.len() ==> #[trigger] ns.stack[l] == (
            entry_at(s, on[l]) as usize,
            kids_between(s, on[l], on[l] + 1, j),
        )
    &&& ns.pending == kids_between(s, -1, 0, j)
}


/// The entry of the node that holds the item at position `j` of the walk `s`.
pub open spec fn holder_entry<M>(s: Seq<DomItem<M>>, j: int) -> usize {
    entry_at(s, parent_of(s, j)) as usize
}

/// The step that renders the item at position `j` of the walk `s` for the first time, in walk
/// order; none for an attribute that is set after everything else.
pub open spec fn item_step<M, S>(s: Seq<DomItem<M>>, j: int) -> Seq<Step<M, S>> {
    let n = holder_entry(s, j);
    match s[j] {
        DomItem::Element { name, .. } => seq![Step::CreateElement(name)],
        DomItem::Text(t) => seq![Step::CreateText(t)],
        DomItem::Component { msg, create, .. } => seq![Step::CreateComponent { msg, create }],
        DomItem::UnsafeInnerHtml(html) => seq![Step::SetInnerHtml { node: n, html }],
        DomItem::Attr { name, value } => if is_deferred_attr(name@) {
            seq![]
        } else {
            seq![Step::SetAttribute { node: n, name, value }]
        },
        DomItem::Event { trigger, handler } => seq![Step::AddListener { node: n, trigger, handler }],
        DomItem::Up => seq![Step::StoreUp],
        DomItem::Key(_) => seq![],
    }
}

/// The setting of the attribute at position `j` of the walk `s`, when it is set after
/// everything else.
pub open spec fn late_step<M, S>(s: Seq<DomItem<M>>, j: int) -> Seq<Step<M, S>> {
    match s[j] {
        DomItem::Attr { name, value } => if is_deferred_attr(name@) {
            seq![Step::SetProperty { node: holder_entry(s, j), name, value }]
        } else {
            seq![]
        },
        _ => seq![],
    }
}

/// The steps that render the items at positions `a` to `b` of the walk `s`, in order.
pub open spec fn items_steps<M, S>(s: Seq<DomItem<M>>, a: int, b: int) -> Seq<Step<M, S>>
    decreases b - a,
{
    if b <= a {
        seq![]
    } else {
        item_step(s, a) + items_steps(s, a + 1, b)
    }
}

/// The late settings of the attributes at positions `a` to `b` of the walk `s`, in order.
pub open spec fn late_steps<M, S>(s: Seq<DomItem<M>>, a: int, b: int) -> Seq<Step<M, S>>
    decreases b - a,
{
    if b <= a {
        seq![]
    } else {
        late_steps(s, a, b - 1) + late_step(s, b - 1)
    }
}

/// The steps other than insertions, in order.
pub open spec fn without_inserts<M, S>(steps: Seq<Step<M, S>>) -> Seq<Step<M, S>>
    decreases steps.len(),
{
    if steps.len() == 0 {
        seq![]
    } else {
        (if steps[0] is Insert || steps[0] is InsertBeside {
            Seq::<Step<M, S>>::empty()
        } else {
            seq![steps[0]]
        }) + without_inserts(steps.drop_first())
    }
}

proof fn lemma_without_inserts_concat<M, S>(a: Seq<Step<M, S>>, b: Seq<Step<M, S>>)
    ensures
        without_inserts(a + b) == without_inserts(a) + without_inserts(b),
    decreases a.len(),
{
    if a.len() == 0 {
        assert(a + b =~= b);
        assert(Seq::<Step<M, S>>::empty() + without_inserts(b) =~= without_inserts(b));
    } else {
        lemma_without_inserts_concat(a.drop_first(), b);
        assert((a + b).drop_first() =~= a.drop_first() + b);
        assert((a + b)[0] == a[0]);
        let h = if a[0] is Insert || a[0] is InsertBeside {
            Seq::<Step<M, S>>::empty()
        } else {
            seq![a[0]]
        };
        assert(h + (without_inserts(a.drop_first()) + without_inserts(b)) =~= (h + without_inserts(
            a.drop_first(),
        )) + without_inserts(b));
    }
}

proof fn lemma_without_inserts_plain<M, S>(steps: Seq<Step<M, S>>)
    requires
        no_inserts(steps),
    ensures
        without_inserts(steps) == steps,
    decreases steps.len(),
{
    if steps.len() > 0 {
        assert forall|i: int| 0 <= i < steps.drop_first().len() implies !(
        #[trigger] steps.drop_first()[i] is Insert) && !(steps.drop_first()[i] is InsertBeside) by {
            assert(steps.drop_first()[i] == steps[i + 1]);
        }
        lemma_without_inserts_plain(steps.drop_first());
        assert(seq![steps[0]] + steps.drop_first() =~= steps);
    }
}

/// The entry of an item is at most the number of entries of the whole walk.
proof fn lemma_entry_bounded<M>(s: Seq<DomItem<M>>, p: int)
    requires
        0 <= p <= s.len(),
    ensures
        entry_at(s, p) <= storage_count(s),
{
    assert(s =~= s.take(p) + s.subrange(p, s.len() as int));
    lemma_storage_count_concat(s.take(p), s.subrange(p, s.len() as int));
}

/// The prefixes of a well formed walk close no node they did not open.
proof fn lemma_prefix_nesting<M>(s: Seq<DomItem<M>>, j: int)
    requires
        well_formed(s),
        0 <= j <= s.len(),
    ensures
        forall|k: int| 0 <= k <= s.take(j).len() ==> #[trigger] nesting(s.take(j).take(k)) >= 0,
{
    assert forall|k: int| 0 <= k <= s.take(j).len() implies #[trigger] nesting(s.take(j).take(k))
        >= 0 by {
        assert(s.take(j).take(k) =~= s.take(k));
    }
}

/// Insertions leave nothing once insertions are taken out.
proof fn lemma_ins_removed<M, S>(ins: Seq<Step<M, S>>)
    requires
        forall|i: int| 0 <= i < ins.len() ==> #[trigger] ins[i] is Insert,
    ensures
        without_inserts(ins) == Seq::<Step<M, S>>::empty(),
    decreases ins.len(),
{
    if ins.len() > 0 {
        assert forall|i: int| 0 <= i < ins.drop_first().len() implies #[trigger] ins.drop_first()[i] is Insert by {
            assert(ins.drop_first()[i] == ins[i + 1]);
        }
        lemma_ins_removed(ins.drop_first());
        assert(ins[0] is Insert);
        assert(Seq::<Step<M, S>>::empty() + Seq::<Step<M, S>>::empty() =~= Seq::<Step<M, S>>::empty());
    }
}

/// One step of the plan of the creation patches of a walk keeps the stack of open nodes in
/// line with the walk; it inserts only when a node closes, and then all its children.
proof fn lemma_render_step<M, S>(s: Seq<DomItem<M>>, j: int, st: PlanState<M, S>)
    requires
        0 <= j < s.len(),
        well_formed(s),
        attached(s),
        no_key_refs(s),
        storage_count(s) <= usize::MAX,
        st.next == entry_at(s, j),
        stack_matches(s, j, st.ns),
        no_inserts(st.deferred),
    ensures
        plan_patch(create_patch::<M, S>(s[j]), st, 0) is Ok,
        ({
            let (st1, s1) = plan_patch(create_patch::<M, S>(s[j]), st, 0)->Ok_0;
            let on = open_nodes(s.take(j));
            &&& st1.next == entry_at(s, j + 1)
            &&& stack_matches(s, j + 1, st1.ns)
            &&& no_inserts(st1.deferred)
            &&& appends_only(s1)
            &&& without_inserts(s1) == item_step::<M, S>(s, j)
            &&& st1.deferred == st.deferred + late_step::<M, S>(s, j)
            &&& s[j] is Up ==> on.len() > 0
            &&& forall|e: usize| #[trigger] inserted_into(s1, e) == if s[j] is Up && e == entry_at(s, on.last()) as usize {
                kids_between(s, on.last(), on.last() + 1, j)
            } else {
                Seq::<Child>::empty()
            }
        }),
{
    let x = s[j];
    let p = create_patch::<M, S>(x);
    let on = open_nodes(s.take(j));
    let k = st.next as usize;
    assert(st.next <= storage_count(s)) by {
        lemma_entry_bounded(s, j);
    }
    assert(k == entry_at(s, j));
    assert(s.take(j + 1).drop_last() =~= s.take(j));
    assert(s.take(j + 1).last() == x);
    assert(s.take(j + 1) =~= s.take(j).push(x));
    lemma_storage_count_push(s.take(j), x);
    lemma_prefix_nesting(s, j);
    lemma_open_nodes_shape(s.take(j));
    assert(nesting(s.take(j + 1)) >= 0);
    assert(!(x is Key));
    let on1 = open_nodes(s.take(j + 1));
    if opens_node(x) {
        let c = child_at(s, j);
        assert(on1 == on.push(j));
        let r = plan_patch(p, st, 0);
        assert(r == Ok::<(PlanState<M, S>, Seq<Step<M, S>>), crate::apply::PlanError>(
            (st.open_child(c), r->Ok_0.1),
        ));
        let st1 = st.open_child(c);
        let s1 = r->Ok_0.1;
        assert(no_inserts(s1));
        lemma_without_inserts_plain(s1);
        assert(st1.deferred =~= st.deferred + late_step::<M, S>(s, j));
        lemma_no_inserts(s1, 0);
        assert forall|e: usize| #[trigger] inserted_into(s1, e) == Seq::<Child>::empty() by {
            lemma_no_inserts(s1, e);
        }
        assert forall|l: int| 0 <= l < on1.len() implies #[trigger] st1.ns.stack[l] == (
            entry_at(s, on1[l]) as usize,
            kids_between(s, on1[l], on1[l] + 1, j + 1),
        ) by {
            if l < on.len() {
                assert(on1[l] == on[l]);
                assert(st.ns.stack[l] == (entry_at(s, on[l]) as usize, kids_between(s, on[l], on[l] + 1, j)));
                if l == on.len() - 1 {
                    assert(parent_of(s, j) == on[l]);
                } else {
                    assert(on[l] < on[on.len() - 1]);
                    assert(parent_of(s, j) != on[l]);
                    assert(st1.ns.stack[l] == st.ns.stack[l]);
                }
                assert(kids_between(s, on[l], on[l] + 1, j + 1) =~= kids_between(s, on[l], on[l] + 1, j)
                    + if parent_of(s, j) == on[l] {
                    seq![c]
                } else {
                    Seq::<Child>::empty()
                });
            } else {
                assert(on1[l] == j);
                assert(kids_between(s, j, j + 1, j + 1) =~= Seq::<Child>::empty());
            }
        }
        if on.len() > 0 {
            assert(parent_of(s, j) == on.last());
            assert(0 <= on.last());
            assert(kids_between(s, -1, 0, j + 1) =~= kids_between(s, -1, 0, j));
        } else {
            assert(parent_of(s, j) == -1);
            assert(kids_between(s, -1, 0, j + 1) =~= kids_between(s, -1, 0, j) + seq![c]);
        }
    } else if x is Up {
        assert(on.len() > 0);
        let q = on.last();
        assert(on1 == on.drop_last());
        let top = st.ns.stack.last();
        assert(top == st.ns.stack[on.len() - 1]);
        assert(top == (entry_at(s, q) as usize, kids_between(s, q, q + 1, j)));
        let (ns1, ins) = pop_node::<M, S>(st.ns).unwrap();
        let st1 = plan_patch(p, st, 0)->Ok_0.0;
        let s1 = plan_patch(p, st, 0)->Ok_0.1;
        assert(s1 == ins.push(Step::<M, S>::StoreUp));
        let kids = kids_between(s, q, q + 1, j);
        assert(without_inserts(s1) == item_step::<M, S>(s, j)) by {
            lemma_without_inserts_concat(ins, seq![Step::<M, S>::StoreUp]);
            assert(ins.push(Step::<M, S>::StoreUp) =~= ins + seq![Step::<M, S>::StoreUp]);
            lemma_ins_removed(ins);
            assert(seq![Step::<M, S>::StoreUp].drop_first() =~= Seq::<Step<M, S>>::empty());
            assert(seq![Step::<M, S>::StoreUp][0] == Step::<M, S>::StoreUp);
            assert(without_inserts(Seq::<Step<M, S>>::empty()) == Seq::<Step<M, S>>::empty());
            assert(seq![Step::<M, S>::StoreUp] + Seq::<Step<M, S>>::empty() =~= seq![Step::<M, S>::StoreUp]);
            assert(without_inserts(seq![Step::<M, S>::StoreUp]) =~= seq![Step::<M, S>::StoreUp]);
            assert(Seq::<Step<M, S>>::empty() + seq![Step::<M, S>::StoreUp] =~= seq![Step::<M, S>::StoreUp]);
        }
        assert(st1.deferred =~= st.deferred + late_step::<M, S>(s, j));
        assert forall|e: usize| #[trigger] inserted_into(s1, e) == if e == entry_at(s, q) as usize {
            kids
        } else {
            Seq::<Child>::empty()
        } by {
            assert forall|i: int| 0 <= i < kids.len() implies #[trigger] s1[i] == (Step::<M, S>::Insert {
                parent: entry_at(s, q) as usize,
                child: kids[i],
                before: None,
            }) by {
                assert(s1[i] == ins[i]);
            }
            lemma_inserted_by_pop(s1, kids, entry_at(s, q) as usize, e);
        }
        assert(appends_only(s1)) by {
            assert forall|i: int| 0 <= i < s1.len() implies match #[trigger] s1[i] {
                Step::Insert { before, .. } => before is None,
                Step::InsertBeside { .. } => false,
                _ => true,
            } by {
                if i < ins.len() {
                    assert(s1[i] == ins[i]);
                }
            }
        }
        assert forall|l: int| 0 <= l < on1.len() implies #[trigger] st1.ns.stack[l] == (
            entry_at(s, on1[l]) as usize,
            kids_between(s, on1[l], on1[l] + 1, j + 1),
        ) by {
            assert(on1[l] == on[l]);
            assert(st1.ns.stack[l] == st.ns.stack[l]);
            assert(st.ns.stack[l] == (entry_at(s, on[l]) as usize, kids_between(s, on[l], on[l] + 1, j)));
            assert(kids_between(s, on[l], on[l] + 1, j + 1) =~= kids_between(s, on[l], on[l] + 1, j));
        }
        assert(kids_between(s, -1, 0, j + 1) =~= kids_between(s, -1, 0, j));
    } else {
        assert(on1 == on);
        assert(nesting(s.take(j)) > 0);
        let n = st.ns.last().unwrap();
        assert(plan_patch(p, st, 0) == Ok::<(PlanState<M, S>, Seq<Step<M, S>>), crate::apply::PlanError>(
            plan_on_node(p, st, n),
        ));
        let (st1, s1) = plan_on_node(p, st, n);
        assert(st.ns.stack[on.len() - 1] == (entry_at(s, on[on.len() - 1]) as usize, kids_between(s, on[on.len() - 1], on[on.len() - 1] + 1, j)));
        assert(n == holder_entry(s, j));
        assert(no_inserts(s1));
        lemma_without_inserts_plain(s1);
        assert(st1.deferred =~= st.deferred + late_step::<M, S>(s, j));
        assert forall|e: usize| #[trigger] inserted_into(s1, e) == Seq::<Child>::empty() by {
            lemma_no_inserts(s1, e);
        }
        lemma_no_inserts(s1, 0);
        assert(no_inserts(st1.deferred)) by {
            assert forall|i: int| 0 <= i < st1.deferred.len() implies !(
            #[trigger] st1.deferred[i] is Insert) && !(st1.deferred[i] is InsertBeside) by {
                if i < st.deferred.len() {
                    assert(st1.deferred[i] == st.deferred[i]);
                }
            }
        }
        assert forall|l: int| 0 <= l < on1.len() implies #[trigger] st1.ns.stack[l] == (
            entry_at(s, on1[l]) as usize,
            kids_between(s, on1[l], on1[l] + 1, j + 1),
        ) by {
            assert(st.ns.stack[l] == (entry_at(s, on[l]) as usize, kids_between(s, on[l], on[l] + 1, j)));
            assert(kids_between(s, on[l], on[l] + 1, j + 1) =~= kids_between(s, on[l], on[l] + 1, j));
        }
        assert(kids_between(s, -1, 0, j + 1) =~= kids_between(s, -1, 0, j));
    }
}


/// The node of the entry `e` closed before position `j`: its children were all attached.
pub open spec fn closed_before<M>(s: Seq<DomItem<M>>, p: int, j: int) -> bool {
    p < j && !open_nodes(s.take(j)).contains(p)
}

/// The plan of the creation patches of a walk, from position `j` on, attaches to each node
/// exactly its children in the walk, in order, when the node closes, and leaves the top level
/// children for the parent.
proof fn lemma_render_tree<M, S>(s: Seq<DomItem<M>>, j: int, st: PlanState<M, S>)
    requires
        0 <= j <= s.len(),
        well_formed(s),
        attached(s),
        no_key_refs(s),
        storage_count(s) <= usize::MAX,
        st.next == entry_at(s, j),
        stack_matches(s, j, st.ns),
        no_inserts(st.deferred),
        st.deferred == late_steps::<M, S>(s, 0, j),
    ensures
        plan_from(creations::<M, S>(s), j, st, 0) is Ok,
        ({
            let o = plan_from(creations::<M, S>(s), j, st, 0)->Ok_0;
            &&& o.pending == kids_between(s, -1, 0, s.len() as int)
            &&& appends_only(o.steps)
            &&& without_inserts(o.steps) == items_steps::<M, S>(s, j, s.len() as int) + late_steps::<
                M,
                S,
            >(s, 0, s.len() as int)
            &&& forall|p: int|
                0 <= p < s.len() && opens_node(s[p]) ==> #[trigger] inserted_into(
                    o.steps,
                    entry_at(s, p) as usize,
                ) == if closed_before(s, p, j) {
                    Seq::<Child>::empty()
                } else {
                    children_in_walk(s, p)
                }
        }),
    decreases s.len() - j,
{
    let ps = creations::<M, S>(s);
    if j < s.len() {
        assert(ps[j] == create_patch::<M, S>(s[j]));
        lemma_render_step(s, j, st);
        let (st1, s1) = plan_patch(ps[j], st, 0)->Ok_0;
        assert(st1.deferred =~= late_steps::<M, S>(s, 0, j + 1));
        lemma_render_tree(s, j + 1, st1);
        let o1 = plan_from(ps, j + 1, st1, 0)->Ok_0;
        let o = plan_from(ps, j, st, 0)->Ok_0;
        assert(o.steps == s1 + o1.steps);
        lemma_appends_only_concat(s1, o1.steps);
        lemma_without_inserts_concat(s1, o1.steps);
        assert(without_inserts(o.steps) =~= items_steps::<M, S>(s, j, s.len() as int) + late_steps::<
            M,
            S,
        >(s, 0, s.len() as int));
        let on = open_nodes(s.take(j));
        let on1 = open_nodes(s.take(j + 1));
        assert(s.take(j + 1).drop_last() =~= s.take(j));
        assert(s.take(j + 1).last() == s[j]);
        lemma_prefix_nesting(s, j);
        lemma_prefix_nesting(s, j + 1);
        lemma_open_nodes_shape(s.take(j));
        lemma_open_nodes_shape(s.take(j + 1));
        assert forall|p: int| 0 <= p < s.len() && opens_node(s[p]) implies #[trigger] inserted_into(
            o.steps,
            entry_at(s, p) as usize,
        ) == if closed_before(s, p, j) {
            Seq::<Child>::empty()
        } else {
            children_in_walk(s, p)
        } by {
            let e = entry_at(s, p) as usize;
            lemma_inserted_into_concat(s1, o1.steps, e);
            assert(inserted_into(o1.steps, e) == if closed_before(s, p, j + 1) {
                Seq::<Child>::empty()
            } else {
                children_in_walk(s, p)
            });
            lemma_entry_bounded(s, p);
            if s[j] is Up {
                let q = on.last();
                assert(on.contains(q));
                assert(on1 == on.drop_last());
                assert(!on1.contains(q)) by {
                    if on1.contains(q) {
                        let l = choose|l: int| 0 <= l < on1.len() && on1[l] == q;
                        assert(on[l] == on[on.len() - 1]);
                        assert(on[l] < on[on.len() - 1]);
                    }
                }
                assert(0 <= q < j);
                lemma_entry_bounded(s, q);
                if p == q {
                    lemma_kids_closed(s, q, j + 1, s.len() as int);
                    assert(kids_between(s, q, q + 1, j + 1) =~= kids_between(s, q, q + 1, j));
                    assert(closed_before(s, q, j + 1));
                    assert(!closed_before(s, q, j));
                    assert(inserted_into(s1, e) + Seq::<Child>::empty() =~= inserted_into(s1, e));
                } else {
                    if p < q {
                        lemma_entry_grows(s, p, q);
                    } else {
                        lemma_entry_grows(s, q, p);
                    }
                    assert(inserted_into(s1, e) == Seq::<Child>::empty());
                    assert(Seq::<Child>::empty() + inserted_into(o1.steps, e) =~= inserted_into(o1.steps, e));
                    assert(on1.contains(p) == on.contains(p)) by {
                        if on.contains(p) {
                            let l = choose|l: int| 0 <= l < on.len() && on[l] == p;
                            assert(l != on.len() - 1);
                            assert(on1[l] == p);
                        }
                        if on1.contains(p) {
                            let l = choose|l: int| 0 <= l < on1.len() && on1[l] == p;
                            assert(on[l] == p);
                        }
                    }
                    assert(p != j);
                }
            } else {
                assert(inserted_into(s1, e) == Seq::<Child>::empty());
                assert(Seq::<Child>::empty() + inserted_into(o1.steps, e) =~= inserted_into(o1.steps, e));
                if opens_node(s[j]) {
                    assert(on1 == on.push(j));
                    assert(on1[on.len() as int] == j);
                    assert(on1.contains(j));
                    assert(on1.contains(p) == (on.contains(p) || p == j)) by {
                        if on1.contains(p) {
                            let l = choose|l: int| 0 <= l < on1.len() && on1[l] == p;
                            if l < on.len() {
                                assert(on[l] == p);
                            }
                        }
                        if on.contains(p) {
                            let l = choose|l: int| 0 <= l < on.len() && on[l] == p;
                            assert(on1[l] == p);
                        }
                    }
                } else {
                    assert(on1 == on);
                }
            }
        }
    } else {
        let o = plan_from(ps, j, st, 0)->Ok_0;
        assert(s.take(j) =~= s);
        lemma_open_nodes_shape(s);
        assert(open_nodes(s).len() == 0);
        assert(o.steps == st.deferred);
        lemma_no_inserts(st.deferred, 0);
        lemma_without_inserts_plain(st.deferred);
        assert(items_steps::<M, S>(s, j, s.len() as int) =~= Seq::<Step<M, S>>::empty());
        assert(without_inserts(o.steps) =~= items_steps::<M, S>(s, j, s.len() as int) + late_steps::<
            M,
            S,
        >(s, 0, s.len() as int));
        assert forall|p: int| 0 <= p < s.len() && opens_node(s[p]) implies #[trigger] inserted_into(
            o.steps,
            entry_at(s, p) as usize,
        ) == if closed_before(s, p, j) {
            Seq::<Child>::empty()
        } else {
            children_in_walk(s, p)
        } by {
            lemma_no_inserts(st.deferred, entry_at(s, p) as usize);
            assert(!open_nodes(s.take(j)).contains(p));
        }
    }
}

/// Rendering a walk for the first time builds the tree it describes: diffing it against
/// nothing gives patches whose plan, apart from attaching nodes, renders each item of the walk
/// in order (creating nodes, setting attributes and inner html, adding listeners on the node
/// that holds them, marking node ends), with the attributes set after everything else last;
/// attaches to each node exactly its children in the walk, in order, each at the end of its
/// parent; and leaves the top level nodes, in order, for the parent the app is attached to.
pub proof fn law_first_render_builds_the_tree<M: PartialEq, S>(new: Seq<DomItem<M>>, sto: Seq<S>)
    requires
        keyless(new),
        well_formed(new),
        attached(new),
        no_key_refs(new),
        storage_count(new) <= usize::MAX,
    ensures
        ({
            let (ps, keyed) = diff_result(Seq::<DomItem<M>>::empty(), new, sto);
            let planned = plan_list(ps, keyed, keyed.dom().len(), 0);
            &&& planned is Ok
            &&& planned->Ok_0.pending == children_in_walk(new, -1)
            &&& appends_only(planned->Ok_0.steps)
            &&& without_inserts(planned->Ok_0.steps) == items_steps::<M, S>(new, 0, new.len() as int)
                + late_steps::<M, S>(new, 0, new.len() as int)
            &&& forall|p: int|
                0 <= p < new.len() && opens_node(new[p]) ==> #[trigger] inserted_into(
                    planned->Ok_0.steps,
                    entry_at(new, p) as usize,
                ) == children_in_walk(new, p)
        }),
{
    lemma_well_formed_no_stray_up(new);
    law_diff_from_empty_creates(new, sto);
    let keyed = Map::<u64, Seq<Patch<M, S>>>::empty();
    assert(keyed.dom() =~= Set::<u64>::empty());
    let st = PlanState::<M, S>::start(keyed, 0);
    assert(new.take(0) =~= Seq::<DomItem<M>>::empty());
    assert(open_nodes(new.take(0)) =~= Seq::<int>::empty());
    assert(kids_between(new, -1, 0, 0) =~= Seq::<Child>::empty());
    assert(st.ns.pending =~= Seq::<Child>::empty());
    assert(st.deferred =~= late_steps::<M, S>(new, 0, 0));
    lemma_render_tree(new, 0, st);
}

// ---------------------------------------------------------------------------------------------
// Re-rendering an unchanged walk.
// ---------------------------------------------------------------------------------------------

/// The steps that leave the rendered walk `s`, whose storage entries are `sto`, where it is:
/// each node and listener is kept from its own entry, each node end stored.
pub open spec fn keep_steps<M, S>(s: Seq<DomItem<M>>, sto: Seq<S>) -> Seq<Step<M, S>>
    decreases s.len(),
{
    if s.len() == 0 {
        seq![]
    } else {
        let here: Seq<Step<M, S>> = match s[0] {
            DomItem::Element { .. } | DomItem::Text(_) | DomItem::Component { .. }
            | DomItem::Event { .. } => seq![Step::Keep(sto[0])],
            DomItem::Up => seq![Step::StoreUp],
            _ => seq![],
        };
        here + keep_steps(
            s.drop_first(),
            if uses_storage(s[0]) {
                sto.drop_first()
            } else {
                sto
            },
        )
    }
}

/// No node waits to be attached anywhere, and no setting is put off.
pub open spec fn nothing_waits<M, S>(st: PlanState<M, S>) -> bool {
    &&& st.ns.pending.len() == 0
    &&& forall|k: int| 0 <= k < st.ns.stack.len() ==> (#[trigger] st.ns.stack[k]).1.len() == 0
    &&& st.deferred.len() == 0
}

proof fn lemma_plan_from_shift<M, S>(ps: Seq<Patch<M, S>>, i: int, st: PlanState<M, S>, fuel: nat)
    requires
        1 <= i <= ps.len(),
    ensures
        plan_from(ps, i, st, fuel) == plan_from(ps.drop_first(), i - 1, st, fuel),
    decreases ps.len() - i,
{
    if i < ps.len() {
        assert(ps[i] == ps.drop_first()[i - 1]);
        match plan_patch(ps[i], st, fuel) {
            Ok((st1, s1)) => {
                lemma_plan_from_shift(ps, i + 1, st1, fuel);
            },
            Err(_) => {},
        }
    }
}

/// Planning the patches that carry a walk over, with nothing waiting, keeps every node where it
/// is.
#[verifier::spinoff_prover]
#[verifier::rlimit(60)]
proof fn lemma_keeps_plan<M, S>(s: Seq<DomItem<M>>, sto: Seq<S>, st: PlanState<M, S>, fuel: nat)
    requires
        nothing_waits(st),
        forall|k: int| 0 <= k <= s.len() ==> st.ns.stack.len() + #[trigger] nesting(s.take(k)) >= 0,
        st.ns.stack.len() + nesting(s) == 0,
        no_key_refs(s),
        sto.len() >= storage_count(s),
    ensures
        plan_from(carry_over::<M, S>(s, sto), 0, st, fuel) == Ok::<PlanOut<M, S>, crate::apply::PlanError>(
            PlanOut {
                steps: keep_steps(s, sto),
                keyed: st.keyed,
                pending: Seq::empty(),
                next: st.next + storage_count(s),
            },
        ),
    decreases s.len(),
{
    if s.len() == 0 {
        assert(carry_over::<M, S>(s, sto) =~= Seq::<Patch<M, S>>::empty());
        assert(keep_steps::<M, S>(s, sto) =~= Seq::<Step<M, S>>::empty());
        assert(st.ns.pending =~= Seq::<Child>::empty());
        assert(st.deferred =~= Seq::<Step<M, S>>::empty());
    } else {
        let x = s[0];
        let t = s.drop_first();
        let sto1 = if uses_storage(x) {
            sto.drop_first()
        } else {
            sto
        };
        assert(s =~= seq![x] + t);
        lemma_storage_count_concat(seq![x], t);
        assert(seq![x].drop_first() =~= Seq::<DomItem<M>>::empty());
        assert(storage_count(Seq::<DomItem<M>>::empty()) == 0);
        assert(!(x is Key)) by {
            assert(s[0] == x);
        }
        assert(s.take(1) =~= seq![x]);
        crate::vdom::lemma_nesting_single(x);
        crate::vdom::lemma_nesting_concat(seq![x], t);
        let d = st.ns.stack.len();
        assert(d + nesting(s.take(1)) >= 0);
        let d1 = d + depth_change(x);
        assert forall|k: int| 0 <= k <= t.len() implies d1 + #[trigger] nesting(t.take(k)) >= 0 by {
            assert(s.take(k + 1) =~= seq![x] + t.take(k));
            crate::vdom::lemma_nesting_concat(seq![x], t.take(k));
            assert(d + nesting(s.take(k + 1)) >= 0);
        }
        assert(no_key_refs(t)) by {
            assert forall|k: int| 0 <= k < t.len() implies !(#[trigger] t[k] is Key) by {
                assert(t[k] == s[k + 1]);
            }
        }
        let ps = carry_over::<M, S>(s, sto);
        let rest = carry_over::<M, S>(t, sto1);
        let ks = keep_steps::<M, S>(t, sto1);
        match x {
            DomItem::Attr { .. } | DomItem::UnsafeInnerHtml(_) => {
                assert(ps =~= rest);
                assert(keep_steps::<M, S>(s, sto) =~= ks);
                lemma_keeps_plan(t, sto1, st, fuel);
            },
            DomItem::Up => {
                assert(ps =~= seq![Patch::<M, S>::Up] + rest);
                assert(d >= 1);
                let top = st.ns.stack.last();
                assert(top.1.len() == 0);
                let pn = pop_node::<M, S>(st.ns);
                let (ns1, ins) = pn.unwrap();
                assert(ins =~= Seq::<Step<M, S>>::empty());
                let st1 = PlanState { ns: ns1, deferred: st.deferred, keyed: st.keyed, next: st.next + 1 };
                assert(plan_patch(ps[0], st, fuel) == Ok::<(PlanState<M, S>, Seq<Step<M, S>>), crate::apply::PlanError>((st1, seq![Step::<M, S>::StoreUp])));
                assert(nothing_waits(st1)) by {
                    assert forall|k: int| 0 <= k < st1.ns.stack.len() implies (#[trigger] st1.ns.stack[k]).1.len() == 0 by {
                        assert(st1.ns.stack[k] == st.ns.stack[k]);
                    }
                }
                lemma_keeps_plan(t, sto1, st1, fuel);
                lemma_plan_from_shift(ps, 1, st1, fuel);
                assert(ps.drop_first() =~= rest);
                assert(keep_steps::<M, S>(s, sto) =~= seq![Step::<M, S>::StoreUp] + ks);
            },
            DomItem::Event { .. } => {
                let w = sto[0];
                assert(ps =~= seq![Patch::<M, S>::CopyListener(w)] + rest);
                let st1 = st.stored();
                lemma_keeps_plan(t, sto1, st1, fuel);
                lemma_plan_from_shift(ps, 1, st1, fuel);
                assert(ps.drop_first() =~= rest);
                assert(keep_steps::<M, S>(s, sto) =~= seq![Step::<M, S>::Keep(w)] + ks);
            },
            _ => {
                let w = sto[0];
                let p = ps[0];
                assert(ps =~= seq![p] + rest);
                assert(p == Patch::<M, S>::CopyElement(w) || p == Patch::<M, S>::CopyText(w) || p
                    == Patch::<M, S>::CopyComponent(w));
                let k = st.next as usize;
                let (ns1, ins) = inserts_before::<M, S>(st.ns, Some(k)).unwrap();
                if d > 0 {
                    assert(st.ns.stack.last().1.len() == 0);
                }
                assert(ins =~= Seq::<Step<M, S>>::empty());
                let st1 = PlanState { ns: ns1.push_parent(k), deferred: st.deferred, keyed: st.keyed, next: st.next + 1 };
                assert(plan_patch(p, st, fuel) == Ok::<(PlanState<M, S>, Seq<Step<M, S>>), crate::apply::PlanError>((st1, seq![Step::<M, S>::Keep(w)])));
                assert(nothing_waits(st1)) by {
                    assert forall|kk: int| 0 <= kk < st1.ns.stack.len() implies (#[trigger] st1.ns.stack[kk]).1.len() == 0 by {
                        if kk < d {
                            if kk < d - 1 {
                                assert(st1.ns.stack[kk] == st.ns.stack[kk]);
                            }
                        }
                    }
                }
                lemma_keeps_plan(t, sto1, st1, fuel);
                lemma_plan_from_shift(ps, 1, st1, fuel);
                assert(ps.drop_first() =~= rest);
                assert(keep_steps::<M, S>(s, sto) =~= seq![Step::<M, S>::Keep(w)] + ks);
            },
        }
    }
}

/// Re-rendering an unchanged virtual dom without keys (and without attributes the browser may
/// change on its own), given its storage, leaves the browser's dom as it is, provided every
/// message equals itself: the plan of the diff keeps each node and listener where it is, each
/// from its own storage entry and in order, and stores each node end; it creates, inserts,
/// removes and changes nothing, leaves nothing to attach, and uses no keyed list.
pub proof fn law_rerender_unchanged_keeps_the_tree<M: PartialEq, S>(x: Seq<DomItem<M>>, sto: Seq<S>)
    requires
        keyless(x),
        well_formed(x),
        no_key_refs(x),
        no_special_attrs(x),
        reflexive_messages::<M>(),
        sto.len() >= storage_count(x),
    ensures
        ({
            let (ps, keyed) = diff_result(x, x, sto);
            plan_list(ps, keyed, keyed.dom().len(), 0) == Ok::<PlanOut<M, S>, crate::apply::PlanError>(
                PlanOut {
                    steps: keep_steps(x, sto),
                    keyed: Map::empty(),
                    pending: Seq::empty(),
                    next: storage_count(x),
                },
            )
        }),
{
    law_diff_identical_carries_over(x, sto);
    let keyed = Map::<u64, Seq<Patch<M, S>>>::empty();
    assert(keyed.dom() =~= Set::<u64>::empty());
    let st = PlanState::<M, S>::start(keyed, 0);
    assert(nothing_waits(st));
    lemma_keeps_plan(x, sto, st, 0);
}

// ---------------------------------------------------------------------------------------------
// Re-rendering a walk whose nodes stay the same, with other attributes, text, listeners or
// component messages.
// ---------------------------------------------------------------------------------------------

/// The item `y` of the new dom stands where the item `x` of the old dom stood, as the same
/// node: an element of the same name, a text node, a component made the same way (none keyed),
/// or an attribute, a listener or a node end.
pub open spec fn same_place<M>(x: DomItem<M>, y: DomItem<M>) -> bool {
    match (x, y) {
        (DomItem::Element { name: a, key: None }, DomItem::Element { name: b, key: None }) => a@
            == b@,
        (DomItem::Text(_), DomItem::Text(_)) => true,
        (DomItem::Component { create: a, key: None, .. }, DomItem::Component { create: b, key: None, .. }) => a == b,
        (DomItem::Attr { .. }, DomItem::Attr { .. }) => true,
        (DomItem::Event { .. }, DomItem::Event { .. }) => true,
        (DomItem::Up, DomItem::Up) => true,
        _ => false,
    }
}

/// The walks `old` and `new` have the same nodes in the same places: they differ at most in
/// attributes, text, listeners and component messages.
pub open spec fn same_shape<M>(old: Seq<DomItem<M>>, new: Seq<DomItem<M>>) -> bool {
    &&& old.len() == new.len()
    &&& forall|i: int| 0 <= i < old.len() ==> same_place(#[trigger] old[i], new[i])
}

/// A step that leaves the tree of nodes as it is: it keeps or updates a node where it is, sets
/// or removes an attribute, adds or removes a listener, or stores a node end; it creates,
/// inserts, moves or removes no node, and does not replace the children of one.
pub open spec fn in_place<M, S>(s: Step<M, S>) -> bool {
    match s {
        Step::Keep(_) | Step::ReplaceText { .. } | Step::UpdateComponent { .. }
        | Step::SetAttribute { .. } | Step::SetProperty { .. } | Step::RemoveAttribute { .. }
        | Step::AddListener { .. } | Step::RemoveListener { .. } | Step::StoreUp => true,
        _ => false,
    }
}

/// Every step of `steps` leaves the tree of nodes as it is.
pub open spec fn all_in_place<M, S>(steps: Seq<Step<M, S>>) -> bool {
    forall|i: int| 0 <= i < steps.len() ==> in_place(#[trigger] steps[i])
}

/// The patches the diff emits for the old item `x` and the new item `y` standing in its place,
/// with the storage entries `sto` left.
pub open spec fn pair_patches<M: PartialEq, S>(x: DomItem<M>, y: DomItem<M>, sto: Seq<S>) -> Seq<
    Patch<M, S>,
> {
    compare(
        DiffModel {
            old: seq![],
            new: seq![],
            sto,
            patches: seq![],
            old_def: seq![],
            new_def: seq![],
            defer: true,
        },
        x,
        y,
    ).0.patches
}

/// The patches the diff emits for walks of the same shape, pair by pair.
pub open spec fn update_patches<M: PartialEq, S>(
    s: Seq<DomItem<M>>,
    t: Seq<DomItem<M>>,
    sto: Seq<S>,
) -> Seq<Patch<M, S>>
    decreases s.len(),
{
    if s.len() == 0 || t.len() == 0 {
        seq![]
    } else {
        pair_patches(s[0], t[0], sto) + update_patches(
            s.drop_first(),
            t.drop_first(),
            if uses_storage(s[0]) {
                sto.drop_first()
            } else {
                sto
            },
        )
    }
}

#[verifier::spinoff_prover]
#[verifier::rlimit(60)]
proof fn lemma_compare_same_place<M: PartialEq, S>(m: DiffModel<M, S>, x: DomItem<M>, y: DomItem<M>)
    requires
        same_place(x, y),
    ensures
        ({
            let (m2, o2, n2) = compare(m, x, y);
            &&& m2.patches == m.patches + pair_patches(x, y, m.sto)
            &&& m2.sto == if uses_storage(x) {
                m.sto.drop_first()
            } else {
                m.sto
            }
            &&& rest_old(m2, o2) == m.old
            &&& rest_new(m2, n2) == m.new
            &&& (o2 is None ==> m2.old.len() == 0)
            &&& (n2 is None ==> m2.new.len() == 0)
            &&& m2.defer == m.defer
            &&& m2.old_def == m.old_def
            &&& m2.new_def == m.new_def
        }),
{
    let z = DiffModel::<M, S> {
        old: seq![],
        new: seq![],
        sto: m.sto,
        patches: seq![],
        old_def: seq![],
        new_def: seq![],
        defer: true,
    };
    let (m2, o2, n2) = compare(m, x, y);
    let r = compare(z, x, y).0;
    assert(!(match_of(x, y) is Differ));
    assert(m2.patches =~= m.patches + r.patches);
    assert(rest_old(m2, o2) =~= m.old);
    assert(rest_new(m2, n2) =~= m.new);
}

proof fn lemma_walk_same_shape<M: PartialEq, S>(
    m: DiffModel<M, S>,
    o: Option<DomItem<M>>,
    n: Option<DomItem<M>>,
)
    requires
        same_shape(rest_old(m, o), rest_new(m, n)),
        o is None ==> m.old.len() == 0,
        n is None ==> m.new.len() == 0,
    ensures
        walk(m, o, n).patches == m.patches + update_patches(rest_old(m, o), rest_new(m, n), m.sto),
        walk(m, o, n).old_def == m.old_def,
        walk(m, o, n).new_def == m.new_def,
    decreases rest_old(m, o).len(),
{
    let ro = rest_old(m, o);
    let rn = rest_new(m, n);
    if ro.len() == 0 {
        assert(o is None);
        assert(n is None);
        assert(walk(m, o, n) == m);
        assert(m.patches + update_patches(ro, rn, m.sto) =~= m.patches);
    } else {
        let x = ro[0];
        let y = rn[0];
        assert(o == Some(x));
        assert(n == Some(y));
        assert(same_place(x, y));
        lemma_compare_same_place(m, x, y);
        let (m2, o2, n2) = compare(m, x, y);
        assert(walk_step(m, o, n) == compare(m, x, y));
        assert(ro.drop_first() =~= m.old);
        assert(rn.drop_first() =~= m.new);
        assert(same_shape(rest_old(m2, o2), rest_new(m2, n2))) by {
            assert forall|i: int| 0 <= i < m.old.len() implies same_place(
                #[trigger] rest_old(m2, o2)[i],
                rest_new(m2, n2)[i],
            ) by {
                assert(ro[i + 1] == m.old[i]);
                assert(rn[i + 1] == m.new[i]);
            }
        }
        assert(crate::diff_model::walk_measure(m2, o2, n2) < crate::diff_model::walk_measure(m, o, n));
        assert(walk(m, o, n) == walk(m2, o2, n2));
        lemma_walk_same_shape(m2, o2, n2);
        assert(walk(m, o, n).patches =~= m.patches + update_patches(ro, rn, m.sto));
    }
}

/// Nothing waits to be attached, `d` nodes are open, and only settings that leave the tree as
/// it is are put off.
pub open spec fn calm<M, S>(st: PlanState<M, S>, d: nat) -> bool {
    &&& st.ns.pending.len() == 0
    &&& st.ns.stack.len() == d
    &&& forall|k: int| 0 <= k < st.ns.stack.len() ==> (#[trigger] st.ns.stack[k]).1.len() == 0
    &&& all_in_place(st.deferred)
}

proof fn lemma_plan_one<M, S>(p: Patch<M, S>, rest: Seq<Patch<M, S>>, st: PlanState<M, S>, fuel: nat)
    ensures
        plan_from(seq![p] + rest, 0, st, fuel) == match plan_patch(p, st, fuel) {
            Ok((st1, s1)) => prepend_steps(s1, plan_from(rest, 0, st1, fuel)),
            Err(e) => Err(e),
        },
{
    let ps = seq![p] + rest;
    assert(ps[0] == p);
    if let Ok((st1, s1)) = plan_patch(p, st, fuel) {
        lemma_plan_from_shift(ps, 1, st1, fuel);
        assert(ps.drop_first() =~= rest);
    }
}

proof fn lemma_prepend_twice<M, S>(a: Seq<Step<M, S>>, b: Seq<Step<M, S>>, r: Result<PlanOut<M, S>, PlanError>)
    ensures
        prepend_steps(a, prepend_steps(b, r)) == prepend_steps(a + b, r),
{
    if let Ok(o) = r {
        assert(a + (b + o.steps) =~= (a + b) + o.steps);
    }
}

/// A node that stays where it is, with nothing waiting: it is kept (or updated) by `step`, and
/// opens.
proof fn lemma_in_place_open<M, S>(st: PlanState<M, S>, step: Step<M, S>, d: nat)
    requires
        calm(st, d),
    ensures
        st.open_in_place(step).1 == seq![step],
        calm(st.open_in_place(step).0, d + 1),
        st.open_in_place(step).0.next == st.next + 1,
        st.open_in_place(step).0.keyed == st.keyed,
{
    let k = st.next as usize;
    let (ns1, ins) = inserts_before::<M, S>(st.ns, Some(k)).unwrap();
    if d > 0 {
        assert(st.ns.stack.last().1.len() == 0);
    }
    assert(ins =~= Seq::<Step<M, S>>::empty());
    assert(seq![step] + ins =~= seq![step]);
    let st1 = st.open_in_place(step).0;
    assert forall|kk: int| 0 <= kk < st1.ns.stack.len() implies (#[trigger] st1.ns.stack[kk]).1.len() == 0 by {
        if kk < d && kk < d - 1 {
            assert(st1.ns.stack[kk] == st.ns.stack[kk]);
        }
    }
}

/// The steps of one pair of items in the same place leave the tree as it is.
#[verifier::spinoff_prover]
#[verifier::rlimit(80)]
proof fn lemma_pair_plan<M: PartialEq, S>(
    x: DomItem<M>,
    y: DomItem<M>,
    sto: Seq<S>,
    rest: Seq<Patch<M, S>>,
    st: PlanState<M, S>,
    d: nat,
    fuel: nat,
) -> (res: (PlanState<M, S>, Seq<Step<M, S>>))
    requires
        same_place(x, y),
        calm(st, d),
        x is Attr || x is Event ==> d > 0,
        x is Up ==> d > 0,
        uses_storage(x) ==> sto.len() >= 1,
    ensures
        plan_from(pair_patches(x, y, sto) + rest, 0, st, fuel) == prepend_steps(
            res.1,
            plan_from(rest, 0, res.0, fuel),
        ),
        all_in_place(res.1),
        calm(res.0, (d + depth_change(x)) as nat),
        res.0.next == st.next + if uses_storage(x) {
            1nat
        } else {
            0nat
        },
        res.0.keyed == st.keyed,
{
    let w = sto[0];
    let q = pair_patches(x, y, sto);
    let ps = q + rest;
    match (x, y) {
        (DomItem::Element { .. }, DomItem::Element { .. }) => {
            assert(q =~= seq![Patch::<M, S>::CopyElement(w)]);
            lemma_plan_one(Patch::<M, S>::CopyElement(w), rest, st, fuel);
            lemma_in_place_open(st, Step::<M, S>::Keep(w), d);
            let (st1, s1) = st.open_in_place(Step::Keep(w));
            (st1, s1)
        },
        (DomItem::Text(ot), DomItem::Text(nt)) => {
            let p = if ot@ == nt@ {
                Patch::<M, S>::CopyText(w)
            } else {
                Patch::ReplaceText { take: w, text: nt }
            };
            let step = if ot@ == nt@ {
                Step::<M, S>::Keep(w)
            } else {
                Step::ReplaceText { take: w, text: nt }
            };
            assert(q =~= seq![p]);
            lemma_plan_one(p, rest, st, fuel);
            lemma_in_place_open(st, step, d);
            st.open_in_place(step)
        },
        (DomItem::Component { msg: om, .. }, DomItem::Component { msg: nm, .. }) => {
            let p = if om.eq_spec(&nm) {
                Patch::<M, S>::CopyComponent(w)
            } else {
                Patch::UpdateComponent { take: w, msg: nm }
            };
            let step = if om.eq_spec(&nm) {
                Step::<M, S>::Keep(w)
            } else {
                Step::UpdateComponent { take: w, msg: nm }
            };
            assert(q =~= seq![p]);
            lemma_plan_one(p, rest, st, fuel);
            lemma_in_place_open(st, step, d);
            st.open_in_place(step)
        },
        (DomItem::Attr { name: on, value: ov }, DomItem::Attr { name: nn, value: nv }) => {
            let node = st.ns.last().unwrap();
            let set = Patch::<M, S>::SetAttribute { name: nn, value: nv };
            let (st_s, s_s) = plan_on_node(set, st, node);
            assert(st_s.ns == st.ns && st_s.keyed == st.keyed && st_s.next == st.next);
            assert(all_in_place(st_s.deferred)) by {
                assert forall|i: int| 0 <= i < st_s.deferred.len() implies in_place(#[trigger] st_s.deferred[i]) by {
                    if i < st.deferred.len() {
                        assert(st_s.deferred[i] == st.deferred[i]);
                    }
                }
            }
            assert(all_in_place(s_s));
            if on@ != nn@ {
                let rm = Patch::<M, S>::RemoveAttribute(on);
                assert(q =~= seq![rm] + seq![set]);
                assert(ps =~= seq![rm] + (seq![set] + rest));
                lemma_plan_one(rm, seq![set] + rest, st, fuel);
                let (st_r, s_r) = plan_on_node(rm, st, node);
                assert(st_r == st);
                lemma_plan_one(set, rest, st, fuel);
                lemma_prepend_twice(s_r, s_s, plan_from(rest, 0, st_s, fuel));
                assert(all_in_place(s_r + s_s)) by {
                    assert forall|i: int| 0 <= i < (s_r + s_s).len() implies in_place(#[trigger] (s_r + s_s)[i]) by {
                        if i < s_r.len() {
                            assert((s_r + s_s)[i] == s_r[i]);
                        } else {
                            assert((s_r + s_s)[i] == s_s[i - s_r.len()]);
                        }
                    }
                }
                (st_s, s_r + s_s)
            } else if ov@ != nv@ || crate::diff_model::is_special_attr(nn@) {
                assert(q =~= seq![set]);
                lemma_plan_one(set, rest, st, fuel);
                (st_s, s_s)
            } else {
                assert(q =~= Seq::<Patch<M, S>>::empty());
                assert(ps =~= rest);
                assert(prepend_steps(Seq::<Step<M, S>>::empty(), plan_from(rest, 0, st, fuel)) == plan_from(rest, 0, st, fuel)) by {
                    if let Ok(o) = plan_from(rest, 0, st, fuel) {
                        assert(Seq::<Step<M, S>>::empty() + o.steps =~= o.steps);
                    }
                }
                (st, Seq::empty())
            }
        },
        (DomItem::Event { trigger: ot, handler: oh }, DomItem::Event { trigger: nt, handler: nh }) => {
            let node = st.ns.last().unwrap();
            if ot@ != nt@ || !crate::vdom::handler_eq(oh, nh) {
                let rm = Patch::<M, S>::RemoveListener { trigger: ot, take: w };
                let add = Patch::<M, S>::AddListener { trigger: nt, handler: nh };
                assert(q =~= seq![rm] + seq![add]);
                assert(ps =~= seq![rm] + (seq![add] + rest));
                lemma_plan_one(rm, seq![add] + rest, st, fuel);
                let (st_r, s_r) = plan_on_node(rm, st, node);
                lemma_plan_one(add, rest, st_r, fuel);
                let (st_a, s_a) = plan_on_node(add, st_r, node);
                lemma_prepend_twice(s_r, s_a, plan_from(rest, 0, st_a, fuel));
                assert(all_in_place(s_r + s_a)) by {
                    assert forall|i: int| 0 <= i < (s_r + s_a).len() implies in_place(#[trigger] (s_r + s_a)[i]) by {
                        if i < s_r.len() {
                            assert((s_r + s_a)[i] == s_r[i]);
                        } else {
                            assert((s_r + s_a)[i] == s_a[i - s_r.len()]);
                        }
                    }
                }
                (st_a, s_r + s_a)
            } else {
                let p = Patch::<M, S>::CopyListener(w);
                assert(q =~= seq![p]);
                lemma_plan_one(p, rest, st, fuel);
                (st.stored(), seq![Step::<M, S>::Keep(w)])
            }
        },
        _ => {
            assert(x is Up && y is Up);
            let p = Patch::<M, S>::Up;
            assert(q =~= seq![p]);
            lemma_plan_one(p, rest, st, fuel);
            assert(st.ns.stack.last().1.len() == 0);
            let (ns1, ins) = pop_node::<M, S>(st.ns).unwrap();
            assert(ins =~= Seq::<Step<M, S>>::empty());
            let st1 = PlanState { ns: ns1, deferred: st.deferred, keyed: st.keyed, next: st.next + 1 };
            assert(Seq::<Step<M, S>>::empty().push(Step::<M, S>::StoreUp) =~= seq![Step::<M, S>::StoreUp]);
            assert forall|kk: int| 0 <= kk < st1.ns.stack.len() implies (#[trigger] st1.ns.stack[kk]).1.len() == 0 by {
                assert(st1.ns.stack[kk] == st.ns.stack[kk]);
            }
            (st1, seq![Step::<M, S>::StoreUp])
        },
    }
}

/// Planning the patches of walks of the same shape, with nothing waiting, leaves the tree as it
/// is.
#[verifier::spinoff_prover]
#[verifier::rlimit(60)]
proof fn lemma_update_plan<M: PartialEq, S>(
    s: Seq<DomItem<M>>,
    t: Seq<DomItem<M>>,
    sto: Seq<S>,
    st: PlanState<M, S>,
    d: nat,
    fuel: nat,
)
    requires
        same_shape(s, t),
        calm(st, d),
        forall|k: int| 0 <= k <= s.len() ==> d + #[trigger] nesting(s.take(k)) >= 0,
        d + nesting(s) == 0,
        forall|k: int|
            0 <= k < s.len() && (#[trigger] s[k] is Attr || s[k] is Event) ==> d + nesting(
                s.take(k),
            ) > 0,
        sto.len() >= storage_count(s),
    ensures
        ({
            let r = plan_from(update_patches(s, t, sto), 0, st, fuel);
            &&& r is Ok
            &&& all_in_place(r->Ok_0.steps)
            &&& r->Ok_0.pending.len() == 0
            &&& r->Ok_0.next == st.next + storage_count(s)
            &&& r->Ok_0.keyed == st.keyed
        }),
    decreases s.len(),
{
    if s.len() == 0 {
        assert(update_patches(s, t, sto) =~= Seq::<Patch<M, S>>::empty());
        assert(st.ns.stack.len() == 0);
    } else {
        let x = s[0];
        let y = t[0];
        let s1 = s.drop_first();
        let t1 = t.drop_first();
        let sto1 = if uses_storage(x) {
            sto.drop_first()
        } else {
            sto
        };
        assert(same_place(x, y));
        assert(s =~= seq![x] + s1);
        lemma_storage_count_concat(seq![x], s1);
        assert(seq![x].drop_first() =~= Seq::<DomItem<M>>::empty());
        assert(storage_count(Seq::<DomItem<M>>::empty()) == 0);
        assert(s.take(1) =~= seq![x]);
        assert(s.take(0) =~= Seq::<DomItem<M>>::empty());
        crate::vdom::lemma_nesting_single(x);
        crate::vdom::lemma_nesting_concat(seq![x], s1);
        assert(d + nesting(s.take(1)) >= 0);
        if x is Attr || x is Event {
            assert(d + nesting(s.take(0)) > 0);
        }
        let rest = update_patches(s1, t1, sto1);
        assert(update_patches(s, t, sto) == pair_patches(x, y, sto) + rest);
        let (st1, steps1) = lemma_pair_plan(x, y, sto, rest, st, d, fuel);
        let d1 = (d + depth_change(x)) as nat;
        assert(same_shape(s1, t1)) by {
            assert forall|i: int| 0 <= i < s1.len() implies same_place(#[trigger] s1[i], t1[i]) by {
                assert(s1[i] == s[i + 1]);
                assert(t1[i] == t[i + 1]);
            }
        }
        assert forall|k: int| 0 <= k <= s1.len() implies d1 + #[trigger] nesting(s1.take(k)) >= 0 by {
            assert(s.take(k + 1) =~= seq![x] + s1.take(k));
            crate::vdom::lemma_nesting_concat(seq![x], s1.take(k));
            assert(d + nesting(s.take(k + 1)) >= 0);
        }
        assert forall|k: int|
            0 <= k < s1.len() && (#[trigger] s1[k] is Attr || s1[k] is Event) implies d1 + nesting(
            s1.take(k),
        ) > 0 by {
            assert(s1[k] == s[k + 1]);
            assert(s.take(k + 1) =~= seq![x] + s1.take(k));
            crate::vdom::lemma_nesting_concat(seq![x], s1.take(k));
        }
        lemma_update_plan(s1, t1, sto1, st1, d1, fuel);
        let r1 = plan_from(rest, 0, st1, fuel);
        let o1 = r1->Ok_0;
        assert(all_in_place(steps1 + o1.steps)) by {
            assert forall|i: int| 0 <= i < (steps1 + o1.steps).len() implies in_place(#[trigger] (steps1 + o1.steps)[i]) by {
                if i < steps1.len() {
                    assert((steps1 + o1.steps)[i] == steps1[i]);
                } else {
                    assert((steps1 + o1.steps)[i] == o1.steps[i - steps1.len()]);
                }
            }
        }
    }
}

proof fn lemma_same_shape_storage<M>(s: Seq<DomItem<M>>, t: Seq<DomItem<M>>)
    requires
        same_shape(s, t),
    ensures
        storage_count(s) == storage_count(t),
        nesting(s) == nesting(t),
    decreases s.len(),
{
    if s.len() > 0 {
        let s1 = s.drop_first();
        let t1 = t.drop_first();
        assert(same_place(s[0], t[0]));
        assert(same_shape(s1, t1)) by {
            assert forall|i: int| 0 <= i < s1.len() implies same_place(#[trigger] s1[i], t1[i]) by {
                assert(s1[i] == s[i + 1]);
                assert(t1[i] == t[i + 1]);
            }
        }
        lemma_same_shape_storage(s1, t1);
        assert(s =~= seq![s[0]] + s1);
        assert(t =~= seq![t[0]] + t1);
        crate::vdom::lemma_nesting_concat(seq![s[0]], s1);
        crate::vdom::lemma_nesting_concat(seq![t[0]], t1);
        crate::vdom::lemma_nesting_single(s[0]);
        crate::vdom::lemma_nesting_single(t[0]);
    } else {
        assert(nesting(t) == 0);
    }
}

/// Re-rendering a virtual dom whose nodes stay the same (elements of the same names, text
/// nodes, components made the same way, none keyed, no inner html), with other attributes,
/// text, listeners or component messages, leaves the tree of nodes as it is: the plan of the
/// diff, given the old dom's storage, succeeds, and every step keeps or updates a node where it
/// is, sets or removes an attribute, adds or removes a listener, or stores a node end; none
/// creates, inserts, moves or removes a node. It leaves nothing to attach, uses no keyed list,
/// and stores one entry per node, listener and node end of the new walk.
pub proof fn law_rerender_same_shape_keeps_the_tree<M: PartialEq, S>(
    old: Seq<DomItem<M>>,
    new: Seq<DomItem<M>>,
    sto: Seq<S>,
)
    requires
        same_shape(old, new),
        well_formed(old),
        attached(old),
        sto.len() >= storage_count(old),
    ensures
        ({
            let (ps, keyed) = diff_result(old, new, sto);
            let planned = plan_list(ps, keyed, keyed.dom().len(), 0);
            &&& keyed == Map::<u64, Seq<Patch<M, S>>>::empty()
            &&& planned is Ok
            &&& all_in_place(planned->Ok_0.steps)
            &&& planned->Ok_0.pending.len() == 0
            &&& planned->Ok_0.next == storage_count(new)
        }),
{
    let (m1, o) = start(old, new, sto, true).pop_old();
    let (m2, n) = m1.pop_new();
    assert(rest_old(m2, o) =~= old);
    assert(rest_new(m2, n) =~= new);
    lemma_walk_same_shape(m2, o, n);
    let m = run(old, new, sto, true);
    assert(m.patches =~= update_patches(old, new, sto));
    assert(m.old_def =~= Seq::<(u64, Seq<DomItem<M>>, Seq<S>)>::empty());
    assert(m.new_def =~= Seq::<(u64, Seq<DomItem<M>>)>::empty());
    let keyed = Map::<u64, Seq<Patch<M, S>>>::empty();
    assert(keyed.dom() =~= Set::<u64>::empty());
    let st = PlanState::<M, S>::start(keyed, 0);
    assert(calm(st, 0));
    assert(forall|k: int| 0 <= k < old.len() && (#[trigger] old[k] is Attr || old[k] is Event) ==> nesting(old.take(k)) > 0);
    lemma_update_plan(old, new, sto, st, 0, 0);
    lemma_same_shape_storage(old, new);
}

// ---------------------------------------------------------------------------------------------
// Patches that change nothing.
// ---------------------------------------------------------------------------------------------

/// Steps that only keep a node or a listener where it is, or store a node end.
pub open spec fn only_keeps<M, S>(steps: Seq<Step<M, S>>) -> bool {
    forall|i: int| 0 <= i < steps.len() ==> (#[trigger] steps[i] is Keep || steps[i] is StoreUp)
}

/// A patch that the no-op test of a patch set counts as changing nothing (other than a
/// reference to a keyed list) does change nothing when it is applied: with nothing waiting to
/// be attached, its steps only keep a node or a listener where it is, or store a node end; it
/// puts no setting off and leaves nothing waiting.
pub proof fn law_noop_patch_changes_nothing<M, S>(p: Patch<M, S>, st: PlanState<M, S>, fuel: nat)
    requires
        is_noop_patch(p),
        !(p is ReferenceKey),
        nothing_waits(st),
    ensures
        match plan_patch(p, st, fuel) {
            Ok((st1, steps)) => only_keeps(steps) && nothing_waits(st1),
            Err(_) => true,
        },
{
    let d = st.ns.stack.len();
    match p {
        Patch::CopyListener(w) => {},
        Patch::Up => {
            if d > 0 {
                assert(st.ns.stack.last().1.len() == 0);
                let (ns1, ins) = pop_node::<M, S>(st.ns).unwrap();
                assert(ins =~= Seq::<Step<M, S>>::empty());
                assert(ins.push(Step::<M, S>::StoreUp) =~= seq![Step::<M, S>::StoreUp]);
                assert forall|k: int| 0 <= k < ns1.stack.len() implies (#[trigger] ns1.stack[k]).1.len() == 0 by {
                    assert(ns1.stack[k] == st.ns.stack[k]);
                }
            }
        },
        _ => {
            let w = match p {
                Patch::CopyElement(w) | Patch::CopyText(w) | Patch::CopyComponent(w) => w,
                _ => arbitrary(),
            };
            let k = st.next as usize;
            let (ns1, ins) = inserts_before::<M, S>(st.ns, Some(k)).unwrap();
            if d > 0 {
                assert(st.ns.stack.last().1.len() == 0);
            }
            assert(ins =~= Seq::<Step<M, S>>::empty());
            assert(seq![Step::<M, S>::Keep(w)] + ins =~= seq![Step::<M, S>::Keep(w)]);
            let st1 = st.open_in_place(Step::Keep(w)).0;
            assert forall|kk: int| 0 <= kk < st1.ns.stack.len() implies (#[trigger] st1.ns.stack[kk]).1.len() == 0 by {
                if kk < d && kk < d - 1 {
                    assert(st1.ns.stack[kk] == st.ns.stack[kk]);
                }
            }
        },
    }
}

/// A patch list whose patches the no-op test counts as changing nothing (with no reference to
/// a keyed list) changes nothing when it is applied: when its plan succeeds, every step only
/// keeps a node or a listener where it is or stores a node end, and nothing is left to attach.
pub proof fn law_noop_list_changes_nothing<M, S>(
    ps: Seq<Patch<M, S>>,
    keyed: Map<u64, Seq<Patch<M, S>>>,
    fuel: nat,
    next: nat,
)
    requires
        all_noop(ps),
        crate::patch::no_key_patches(ps),
    ensures
        plan_list(ps, keyed, fuel, next) matches Ok(o) ==> only_keeps(o.steps) && o.pending.len()
            == 0,
{
    let st = PlanState::<M, S>::start(keyed, next);
    assert(nothing_waits(st));
    lemma_noop_from(ps, 0, st, fuel);
}

proof fn lemma_noop_from<M, S>(ps: Seq<Patch<M, S>>, i: int, st: PlanState<M, S>, fuel: nat)
    requires
        0 <= i <= ps.len(),
        all_noop(ps),
        crate::patch::no_key_patches(ps),
        nothing_waits(st),
    ensures
        plan_from(ps, i, st, fuel) matches Ok(o) ==> only_keeps(o.steps) && o.pending.len() == 0,
    decreases ps.len() - i,
{
    if i < ps.len() {
        assert(is_noop_patch(ps[i]));
        assert(!(ps[i] is ReferenceKey));
        law_noop_patch_changes_nothing(ps[i], st, fuel);
        if let Ok((st1, s1)) = plan_patch(ps[i], st, fuel) {
            lemma_noop_from(ps, i + 1, st1, fuel);
            if let Ok(o) = plan_from(ps, i + 1, st1, fuel) {
                assert forall|k: int| 0 <= k < (s1 + o.steps).len() implies (#[trigger] (s1
                    + o.steps)[k] is Keep || (s1 + o.steps)[k] is StoreUp) by {
                    if k < s1.len() {
                        assert((s1 + o.steps)[k] == s1[k]);
                    } else {
                        assert((s1 + o.steps)[k] == o.steps[k - s1.len()]);
                    }
                }
            }
        }
    } else {
        assert(st.deferred =~= Seq::<Step<M, S>>::empty());
    }
}

/// Conversely, a patch (other than a reference to a keyed list) whose steps, with a node open
/// and nothing waiting, only keep a node or a listener where it is or store a node end, putting
/// nothing off and leaving nothing waiting, is one the no-op test counts as changing nothing.
pub proof fn law_patch_that_only_keeps_is_noop<M, S>(p: Patch<M, S>, st: PlanState<M, S>, fuel: nat)
    requires
        !(p is ReferenceKey),
        nothing_waits(st),
        st.ns.stack.len() > 0,
    ensures
        (plan_patch(p, st, fuel) matches Ok((st1, steps)) && only_keeps(steps) && nothing_waits(
            st1,
        )) ==> is_noop_patch(p),
{
    let r = plan_patch(p, st, fuel);
    if let Ok((st1, steps)) = r {
        if only_keeps(steps) && nothing_waits(st1) && !is_noop_patch(p) {
            if steps.len() > 0 {
                assert(steps[0] is Keep || steps[0] is StoreUp);
            }
            match p {
                Patch::SetAttribute { name, value } => {
                    assert(st1.deferred.len() == 0);
                },
                Patch::MoveElement(_) | Patch::CreateElement { .. } | Patch::CreateText { .. }
                | Patch::CreateComponent { .. } | Patch::MoveComponent(_)
                | Patch::MupdateComponent { .. } => {
                    assert(st1.ns.stack.len() >= 2);
                    assert(st1.ns.stack[st1.ns.stack.len() - 2].1.len() == 0);
                },
                _ => {},
            }
        }
    }
}

} // verus!
