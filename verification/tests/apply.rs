use std::collections::HashMap;

use euca::apply::{flag_of, is_deferred_attribute, Child, NodeStack, Plan, PlanError, Step};
use euca::diff;
use euca::dom::{Attr, Dom, DomVec};
use euca::patch::{Patch, PatchSet};
use euca::test::Msg;
use euca::vdom::{DomItem, EventHandler};

fn plan(patches: Vec<Patch<Msg, u32>>) -> Result<Plan<Msg, u32>, PlanError> {
    PatchSet::from(patches).plan()
}

fn plan_keyed(
    patches: Vec<Patch<Msg, u32>>,
    keyed: Vec<(u64, Vec<Patch<Msg, u32>>)>,
) -> Result<Plan<Msg, u32>, PlanError> {
    let mut map = HashMap::new();
    for (k, v) in keyed {
        map.insert(k, v);
    }
    PatchSet { patches, keyed: map }.plan()
}

/// Number the storage entries of a rendered walk: one per node, listener and node end.
fn gen_storage(items: &Vec<DomItem<Msg>>) -> Vec<u32> {
    let mut storage = vec![];
    let mut n: u32 = 0;
    for i in items {
        match i {
            DomItem::Element { .. }
            | DomItem::Text(_)
            | DomItem::Event { .. }
            | DomItem::Component { .. }
            | DomItem::Up => {
                storage.push(n);
                n += 1;
            }
            _ => {}
        }
    }
    storage
}

fn stored(steps: &[Step<Msg, u32>]) -> usize {
    steps
        .iter()
        .filter(|s| match s {
            Step::CreateElement(_)
            | Step::CreateText(_)
            | Step::CreateComponent { .. }
            | Step::Keep(_)
            | Step::ReplaceText { .. }
            | Step::UpdateComponent { .. }
            | Step::MupdateComponent { .. }
            | Step::MoveComponent(_)
            | Step::AddListener { .. }
            | Step::StoreUp => true,
            _ => false,
        })
        .count()
}

fn s(x: &str) -> String {
    x.to_string()
}

#[test]
fn plan_copy_element() {
    let p = plan(vec![Patch::CopyElement(7), Patch::Up]).unwrap();
    assert_eq!(p.steps, vec![Step::Keep(7), Step::StoreUp]);
    assert!(p.pending.is_empty());
}

#[test]
fn plan_add_attribute() {
    let p = plan(vec![
        Patch::CopyElement(7),
        Patch::SetAttribute { name: s("name"), value: s("value") },
        Patch::Up,
    ])
    .unwrap();
    assert_eq!(
        p.steps,
        vec![
            Step::Keep(7),
            Step::SetAttribute { node: 0, name: s("name"), value: s("value") },
            Step::StoreUp,
        ]
    );
}

#[test]
fn plan_add_attribute_checked_is_deferred() {
    let p = plan(vec![
        Patch::CreateElement { element: s("input") },
        Patch::SetAttribute { name: s("checked"), value: s("true") },
        Patch::Up,
    ])
    .unwrap();
    assert_eq!(
        p.steps,
        vec![
            Step::CreateElement(s("input")),
            Step::StoreUp,
            Step::SetProperty { node: 0, name: s("checked"), value: s("true") },
        ]
    );
    assert_eq!(p.pending, vec![Child::Node(0)]);
}

#[test]
fn plan_remove_attribute() {
    let p = plan(vec![Patch::CopyElement(7), Patch::RemoveAttribute(s("name")), Patch::Up]).unwrap();
    assert_eq!(
        p.steps,
        vec![Step::Keep(7), Step::RemoveAttribute { node: 0, name: s("name") }, Step::StoreUp]
    );
}

#[test]
fn plan_insert_element() {
    let gen1 = DomVec(vec![Dom::elem("a"), Dom::elem("b"), Dom::elem("i")]);
    let gen2 = DomVec(vec![Dom::elem("a"), Dom::elem("p"), Dom::elem("i")]);

    let first = diff::diff(vec![], gen1.dom_iter(), Vec::<u32>::new()).plan().unwrap();
    assert_eq!(
        first.steps,
        vec![
            Step::CreateElement(s("a")),
            Step::StoreUp,
            Step::CreateElement(s("b")),
            Step::StoreUp,
            Step::CreateElement(s("i")),
            Step::StoreUp,
        ]
    );
    assert_eq!(first.pending, vec![Child::Node(0), Child::Node(2), Child::Node(4)]);

    let o = gen1.dom_iter();
    let storage = gen_storage(&o);
    let second = diff::diff(o, gen2.dom_iter(), storage).plan().unwrap();
    assert_eq!(
        second.steps,
        vec![
            Step::Keep(0),
            Step::StoreUp,
            Step::RemoveElement(2),
            Step::CreateElement(s("p")),
            Step::StoreUp,
            Step::Keep(4),
            Step::InsertBeside { sibling: 4, child: Child::Node(2) },
            Step::StoreUp,
        ]
    );
    // the new element is the third entry of the new storage: two entries are stored before it
    assert_eq!(stored(&second.steps[..3]), 2);
    assert!(second.pending.is_empty());
}

#[test]
fn plan_insert_element_nested() {
    let gen1 = Dom::elem("div").push(Dom::elem("a")).push(Dom::elem("b")).push(Dom::elem("i"));
    let gen2 = Dom::elem("div").push(Dom::elem("a")).push(Dom::elem("p")).push(Dom::elem("i"));

    let o = gen1.dom_iter();
    let storage = gen_storage(&o);
    let second = diff::diff(o, gen2.dom_iter(), storage).plan().unwrap();
    assert_eq!(
        second.steps,
        vec![
            Step::Keep(0),
            Step::Keep(1),
            Step::StoreUp,
            Step::RemoveElement(3),
            Step::CreateElement(s("p")),
            Step::StoreUp,
            Step::Keep(5),
            Step::Insert { parent: 0, child: Child::Node(3), before: Some(5) },
            Step::StoreUp,
            Step::StoreUp,
        ]
    );
    assert!(second.pending.is_empty());
}

#[test]
fn first_render_stores_what_next_diff_takes() {
    let tree = Dom::elem("div")
        .attr("class", "x")
        .event("click", ())
        .push(Dom::text("hi"))
        .push(Dom::elem("input").attr("value", "3"));
    let items = tree.dom_iter();
    let needed = gen_storage(&items).len();
    let p = diff::diff(vec![], items, Vec::<u32>::new()).plan().unwrap();
    assert_eq!(stored(&p.steps), needed);
    assert_eq!(p.pending, vec![Child::Node(0)]);
}

#[test]
fn plan_stray_up() {
    assert_eq!(plan(vec![Patch::Up]).unwrap_err(), PlanError::StrayUp);
}

#[test]
fn plan_no_parent() {
    assert_eq!(
        plan(vec![Patch::SetAttribute { name: s("a"), value: s("b") }]).unwrap_err(),
        PlanError::NoParent
    );
    assert_eq!(plan(vec![Patch::RemoveText(1)]).unwrap_err(), PlanError::NoParent);
}

#[test]
fn plan_missing_key() {
    assert_eq!(plan(vec![Patch::ReferenceKey(3)]).unwrap_err(), PlanError::MissingKey(3));
}

#[test]
fn plan_unclosed() {
    assert_eq!(
        plan(vec![Patch::CreateElement { element: s("div") }]).unwrap_err(),
        PlanError::Unclosed
    );
}

#[test]
fn plan_key_used_twice() {
    let r = plan_keyed(
        vec![Patch::ReferenceKey(1), Patch::ReferenceKey(1)],
        vec![(1, vec![Patch::CopyElement(0), Patch::Up])],
    );
    assert_eq!(r.unwrap_err(), PlanError::MissingKey(1));
}

#[test]
fn plan_keyed_sub_list() {
    let p = plan_keyed(
        vec![Patch::CreateElement { element: s("ul") }, Patch::ReferenceKey(7), Patch::Up],
        vec![(7, vec![Patch::MoveElement(3), Patch::Up])],
    )
    .unwrap();
    assert_eq!(
        p.steps,
        vec![
            Step::CreateElement(s("ul")),
            Step::Keep(3),
            Step::StoreUp,
            Step::Insert { parent: 0, child: Child::Node(1), before: None },
            Step::StoreUp,
        ]
    );
    assert_eq!(p.pending, vec![Child::Node(0)]);
}

#[test]
fn plan_keyed_sub_list_defers_to_its_own_end() {
    let p = plan_keyed(
        vec![Patch::CopyElement(0), Patch::ReferenceKey(2), Patch::CopyListener(5), Patch::Up],
        vec![(
            2,
            vec![
                Patch::MoveElement(1),
                Patch::SetAttribute { name: s("value"), value: s("4") },
                Patch::Up,
            ],
        )],
    )
    .unwrap();
    assert_eq!(
        p.steps,
        vec![
            Step::Keep(0),
            Step::Keep(1),
            Step::StoreUp,
            Step::SetProperty { node: 1, name: s("value"), value: s("4") },
            Step::Keep(5),
            Step::Insert { parent: 0, child: Child::Node(1), before: None },
            Step::StoreUp,
        ]
    );
}

#[test]
fn plan_create_component() {
    let p = plan(vec![Patch::CreateComponent { msg: (), create: 1 }, Patch::Up]).unwrap();
    assert_eq!(p.steps, vec![Step::CreateComponent { msg: (), create: 1 }, Step::StoreUp]);
    assert_eq!(p.pending, vec![Child::Nodes(0)]);
}

#[test]
fn plan_text_and_components() {
    let p = plan(vec![
        Patch::CopyElement(0),
        Patch::ReplaceText { take: 1, text: s("x") },
        Patch::Up,
        Patch::MupdateComponent { take: 3, msg: () },
        Patch::Up,
        Patch::UpdateComponent { take: 5, msg: () },
        Patch::Up,
        Patch::Up,
    ])
    .unwrap();
    assert_eq!(
        p.steps,
        vec![
            Step::Keep(0),
            Step::ReplaceText { take: 1, text: s("x") },
            Step::StoreUp,
            Step::MupdateComponent { take: 3, msg: () },
            Step::StoreUp,
            Step::UpdateComponent { take: 5, msg: () },
            Step::Insert { parent: 0, child: Child::Nodes(3), before: Some(5) },
            Step::StoreUp,
            Step::StoreUp,
        ]
    );
}

#[test]
fn plan_listeners_and_text_removal() {
    let p = plan(vec![
        Patch::CopyElement(0),
        Patch::AddListener { trigger: s("click"), handler: EventHandler::Msg(()) },
        Patch::CopyListener(2),
        Patch::RemoveListener { trigger: s("input"), take: 3 },
        Patch::RemoveText(4),
        Patch::SetInnerHtml(s("<b>hi</b>")),
        Patch::UnsetInnerHtml,
        Patch::RemoveComponent(6),
        Patch::Up,
    ])
    .unwrap();
    assert_eq!(
        p.steps,
        vec![
            Step::Keep(0),
            Step::AddListener { node: 0, trigger: s("click"), handler: EventHandler::Msg(()) },
            Step::Keep(2),
            Step::RemoveListener { node: 0, trigger: s("input"), take: 3 },
            Step::RemoveText { take: 4, parent: 0 },
            Step::SetInnerHtml { node: 0, html: s("<b>hi</b>") },
            Step::UnsetInnerHtml { node: 0 },
            Step::RemoveComponent(6),
            Step::StoreUp,
        ]
    );
}

#[test]
fn plan_moves_attach_at_top_level() {
    let p = plan(vec![
        Patch::MoveElement(3),
        Patch::Up,
        Patch::MoveComponent(5),
        Patch::Up,
        Patch::CopyText(8),
        Patch::Up,
    ])
    .unwrap();
    assert_eq!(
        p.steps,
        vec![
            Step::Keep(3),
            Step::StoreUp,
            Step::MoveComponent(5),
            Step::StoreUp,
            Step::Keep(8),
            Step::InsertBeside { sibling: 4, child: Child::Node(0) },
            Step::InsertBeside { sibling: 4, child: Child::Nodes(2) },
            Step::StoreUp,
        ]
    );
    assert!(p.pending.is_empty());
}

#[test]
fn deferred_attributes() {
    for name in ["autofocus", "checked", "disabled", "draggable", "hidden", "selected", "spellcheck", "value"] {
        assert!(is_deferred_attribute(&s(name)), "{}", name);
    }
    assert!(!is_deferred_attribute(&s("class")));
    assert!(!is_deferred_attribute(&s("max")));
}

#[test]
fn node_stack_attaches_children_in_order() {
    let mut ns = NodeStack::new();
    let mut out: Vec<Step<Msg, u32>> = vec![];
    ns.push_child(Child::Node(0));
    assert_eq!(ns.depth(), 0);
    assert_eq!(ns.last(), None);
    ns.push_parent(1);
    ns.push_children(vec![Child::Node(2), Child::Nodes(3)]);
    assert_eq!(ns.last(), Some(1));
    assert!(ns.insert_before(Some(9), &mut out));
    assert!(ns.pop(&mut out));
    assert!(!ns.pop(&mut out));
    assert!(!ns.insert_before(None, &mut out));
    assert_eq!(
        out,
        vec![
            Step::Insert { parent: 1, child: Child::Node(2), before: Some(9) },
            Step::Insert { parent: 1, child: Child::Nodes(3), before: Some(9) },
        ]
    );
    assert_eq!(ns.pop_pending(), vec![Child::Node(0)]);
    assert_eq!(ns.pop_pending(), vec![]);
}

/// Every node a step names is held by an entry stored by an earlier step.
fn check_refers_back(plan: &Plan<Msg, u32>) {
    let below = |k: usize, n: usize| assert!(k < n, "entry {} named before it is stored ({})", k, n);
    let child = |c: &Child, n: usize| match c {
        Child::Node(k) | Child::Nodes(k) => below(*k, n),
    };
    for (j, step) in plan.steps.iter().enumerate() {
        let n = stored(&plan.steps[..j]);
        match step {
            Step::RemoveText { parent, .. } => below(*parent, n),
            Step::SetInnerHtml { node, .. }
            | Step::UnsetInnerHtml { node }
            | Step::SetAttribute { node, .. }
            | Step::SetProperty { node, .. }
            | Step::RemoveAttribute { node, .. }
            | Step::AddListener { node, .. }
            | Step::RemoveListener { node, .. } => below(*node, n),
            Step::Insert { parent, child: c, before } => {
                below(*parent, n);
                child(c, n);
                if let Some(b) = before {
                    below(*b, n);
                }
            }
            Step::InsertBeside { sibling, child: c } => {
                below(*sibling, n);
                child(c, n);
            }
            _ => {}
        }
    }
    let n = stored(&plan.steps);
    for c in plan.pending.iter() {
        child(c, n);
    }
}

#[test]
fn plans_name_only_stored_nodes() {
    let gen1 = Dom::elem("div")
        .attr("value", "1")
        .event("click", ())
        .push(Dom::elem("a").attr("href", "#"))
        .push(Dom::text("b"))
        .push(Dom::elem("i"));
    let gen2 = Dom::elem("div")
        .attr("value", "2")
        .push(Dom::elem("p"))
        .push(Dom::text("c"))
        .push(Dom::elem("i").inner_html("<b>x</b>"));
    let first = diff::diff(vec![], gen1.dom_iter(), Vec::<u32>::new()).plan().unwrap();
    check_refers_back(&first);
    let o = gen1.dom_iter();
    let storage = gen_storage(&o);
    let second = diff::diff(o, gen2.dom_iter(), storage).plan().unwrap();
    check_refers_back(&second);
    // the storage built is what the next diff against the new tree takes
    assert_eq!(stored(&second.steps), gen_storage(&gen2.dom_iter()).len());
    let keyed = plan_keyed(
        vec![Patch::CopyElement(0), Patch::ReferenceKey(2), Patch::CopyListener(5), Patch::Up],
        vec![(2, vec![Patch::MoveElement(1), Patch::Up])],
    )
    .unwrap();
    check_refers_back(&keyed);
}

#[test]
fn attr_from_pairs() {
    assert_eq!(Attr::from(("class", "big")), Attr::new("class", "big"));
    assert_eq!(Attr::from(("class", String::from("big"))), Attr::new("class", "big"));
    assert_ne!(Attr::from(("class", "big")), Attr::new("class", "small"));
}

#[test]
fn patch_set_into_patches() {
    let mut ps: PatchSet<Msg, u32> = PatchSet::new();
    ps.push(Patch::CopyElement(3));
    ps.push(Patch::Up);
    ps.root_key(9);
    ps.push(Patch::ReferenceKey(9));
    assert_eq!(ps.into_patches(), vec![Patch::ReferenceKey(9)]);
}

#[test]
fn render_stores_what_next_diff_takes() {
    let gens = vec![
        DomVec(vec![
            Dom::elem("a"),
            Dom::elem("span").push(Dom::text("x")),
            Dom::elem("i").event("click", ()),
        ]),
        DomVec(vec![
            Dom::elem("span").push(Dom::text("y")).push(Dom::text("w")),
            Dom::elem("b").attr("class", "c").push(Dom::elem("i")),
        ]),
        DomVec(vec![
            Dom::elem("span").push(Dom::elem("p")),
            Dom::elem("b").push(Dom::text("z")).push(Dom::elem("p")),
            Dom::elem("q"),
        ]),
        DomVec(vec![Dom::elem("b")]),
    ];
    let mut items: Vec<DomItem<Msg>> = vec![];
    for g in gens.iter() {
        let new = g.dom_iter();
        let storage = gen_storage(&items);
        let plan = diff::diff(items.clone(), new.clone(), storage).plan().unwrap();
        assert_eq!(stored(&plan.steps), gen_storage(&new).len());
        check_refers_back(&plan);
        items = new;
    }
}

#[test]
fn removing_top_level_text_has_no_parent() {
    let old = DomVec(vec![Dom::<Msg>::text("gone")]).dom_iter();
    let storage = gen_storage(&old);
    let r = diff::diff(old, vec![], storage).plan();
    assert_eq!(r.unwrap_err(), PlanError::NoParent);
}

/// The children each plan step attaches to the node of entry `e`, in order.
fn inserted_into(plan: &Plan<Msg, u32>, e: usize) -> Vec<Child> {
    plan.steps
        .iter()
        .filter_map(|s| match s {
            Step::Insert { parent, child, before } if *parent == e => {
                assert!(before.is_none());
                Some(*child)
            }
            _ => None,
        })
        .collect()
}

#[test]
fn first_render_builds_the_tree() {
    // entries: ul 0, li 1, text 2, its end 3, end of li 4, li 5, event 6, b 7, end of b 8,
    // end of li 9, end of ul 10, p 11, end of p 12
    let tree = DomVec(vec![
        Dom::elem("ul")
            .push(Dom::elem("li").push(Dom::text("one")))
            .push(Dom::elem("li").event("click", ()).push(Dom::elem("b"))),
        Dom::elem("p"),
    ]);
    let plan = diff::diff(vec![], tree.dom_iter(), Vec::<u32>::new()).plan().unwrap();
    assert_eq!(plan.pending, vec![Child::Node(0), Child::Node(11)]);
    assert_eq!(inserted_into(&plan, 0), vec![Child::Node(1), Child::Node(5)]);
    assert_eq!(inserted_into(&plan, 1), vec![Child::Node(2)]);
    assert_eq!(inserted_into(&plan, 2), vec![]);
    assert_eq!(inserted_into(&plan, 5), vec![Child::Node(7)]);
    assert_eq!(inserted_into(&plan, 7), vec![]);
    assert_eq!(inserted_into(&plan, 11), vec![]);
    let rendered: Vec<Step<Msg, u32>> = plan
        .steps
        .into_iter()
        .filter(|s| !matches!(s, Step::Insert { .. } | Step::InsertBeside { .. }))
        .collect();
    assert_eq!(
        rendered,
        vec![
            Step::CreateElement(s("ul")),
            Step::CreateElement(s("li")),
            Step::CreateText(s("one")),
            Step::StoreUp,
            Step::StoreUp,
            Step::CreateElement(s("li")),
            Step::AddListener { node: 5, trigger: s("click"), handler: EventHandler::Msg(()) },
            Step::CreateElement(s("b")),
            Step::StoreUp,
            Step::StoreUp,
            Step::StoreUp,
            Step::CreateElement(s("p")),
            Step::StoreUp,
        ]
    );
}

#[test]
fn input_handlers_walk() {
    let tree: Dom<Msg> = Dom::elem("input").onchange(3).oninput(4);
    assert_eq!(
        tree.dom_iter(),
        vec![
            DomItem::Element { name: s("input"), key: None },
            DomItem::Event { trigger: s("change"), handler: EventHandler::InputValue(3) },
            DomItem::Event { trigger: s("input"), handler: EventHandler::InputEvent(4) },
            DomItem::Up,
        ]
    );
}

#[test]
fn keyed_diffs_plan_without_missing_keys() {
    let doms = vec![
        Dom::<Msg>::elem("div").push(Dom::elem("div")).push(Dom::elem("div").key(1)),
        Dom::elem("div").push(Dom::elem("div").key(1)).push(Dom::elem("div")),
        Dom::elem("div").push(Dom::elem("div").key(1).push(Dom::elem("span").key(3))),
        Dom::elem("div").push(Dom::elem("span").key(3).push(Dom::elem("div").key(1))),
        Dom::elem("div")
            .push(Dom::elem("div"))
            .push(Dom::elem("div").key(1))
            .push(Dom::elem("span").key(1)),
        Dom::elem("div").push(Dom::elem("div").key(2).push(Dom::text("two"))),
    ];
    for old in &doms {
        for new in &doms {
            let o = old.dom_iter();
            let storage = gen_storage(&o);
            let patch_set = diff::diff(o, new.dom_iter(), storage);
            // each keyed list is referred to once, and only keyed lists that are there
            let mut refs: Vec<u64> = vec![];
            let lists = std::iter::once(&patch_set.patches).chain(patch_set.keyed.values());
            for list in lists {
                for p in list {
                    if let Patch::ReferenceKey(k) = p {
                        assert!(patch_set.keyed.contains_key(k));
                        assert!(!refs.contains(k));
                        refs.push(*k);
                    }
                }
            }
            let r = patch_set.plan();
            assert!(!matches!(r, Err(PlanError::MissingKey(_))));
            assert!(r.is_ok());
        }
    }
}

#[test]
fn keyed_render_stores_what_next_diff_takes() {
    let doms = vec![
        Dom::<Msg>::elem("div").push(Dom::elem("div")).push(Dom::elem("div").key(1).push(Dom::text("one"))),
        Dom::elem("div").push(Dom::elem("div").key(1).push(Dom::text("one"))).push(Dom::elem("div")),
        Dom::elem("div").push(Dom::elem("div").key(1).push(Dom::elem("span").key(3).event("click", ()))),
        Dom::elem("div").push(Dom::elem("span").key(3).event("click", ()).push(Dom::elem("div").key(1))),
        Dom::elem("div")
            .push(Dom::elem("div"))
            .push(Dom::elem("div").key(1))
            .push(Dom::elem("span").key(1).push(Dom::text("dup"))),
        Dom::elem("div").push(Dom::elem("div").key(2).push(Dom::text("two"))).push(Dom::text("end")),
    ];
    for old in &doms {
        for new in &doms {
            let o = old.dom_iter();
            let n = new.dom_iter();
            let storage = gen_storage(&o);
            let plan = diff::diff(o, n.clone(), storage).plan().unwrap();
            assert_eq!(stored(&plan.steps), gen_storage(&n).len());
        }
    }
}

#[test]
fn boolean_attribute_values() {
    let s = |x: &str| x.to_string();
    assert_eq!(flag_of(&s("checked"), &s("true")), Some(true));
    assert_eq!(flag_of(&s("checked"), &s("false")), Some(false));
    assert_eq!(flag_of(&s("checked"), &s("checked")), Some(true));
    assert_eq!(flag_of(&s("checked"), &s("yes")), None);
    assert_eq!(flag_of(&s("disabled"), &s("")), None);
}

#[test]
fn storage_needed_counts_nodes_listeners_and_ends() {
    let d = Dom::<Msg>::elem("div").attr("id", "x").event("click", ()).push(Dom::text("t"));
    let items = d.dom_iter();
    // div, listener, text, text end, div end
    assert_eq!(euca::vdom::storage_needed(&items), 5);
    assert_eq!(euca::vdom::storage_needed(&items), gen_storage(&items).len());
}

#[test]
fn rerender_unchanged_keeps_the_tree() {
    let x = Dom::<Msg>::elem("div")
        .attr("id", "a")
        .event("click", ())
        .push(Dom::text("t"))
        .push(Dom::elem("p").push(Dom::elem("b")));
    let items = x.dom_iter();
    let storage = gen_storage(&items);
    let plan = diff::diff(items.clone(), items, storage).plan().unwrap();
    // div 0, listener 1, text 2, its end 3, p 4, b 5, its end 6, p's end 7, div end 8
    assert_eq!(
        plan.steps,
        vec![
            Step::Keep(0),
            Step::Keep(1),
            Step::Keep(2),
            Step::StoreUp,
            Step::Keep(4),
            Step::Keep(5),
            Step::StoreUp,
            Step::StoreUp,
            Step::StoreUp,
        ]
    );
    assert!(plan.pending.is_empty());
}

#[test]
fn rerender_same_shape_keeps_the_tree() {
    let old = Dom::<Msg>::elem("div")
        .attr("id", "a")
        .event("click", ())
        .push(Dom::text("before"))
        .push(Dom::elem("input").attr("checked", "false"));
    let new = Dom::<Msg>::elem("div")
        .attr("class", "b")
        .event("keyup", ())
        .push(Dom::text("after"))
        .push(Dom::elem("input").attr("checked", "true"));
    let o = old.dom_iter();
    let storage = gen_storage(&o);
    let plan = diff::diff(o, new.dom_iter(), storage).plan().unwrap();
    // div 0, listener 1, text 2, its end 3, input 4, its end 5, div end 6
    assert_eq!(
        plan.steps,
        vec![
            Step::Keep(0),
            Step::RemoveAttribute { node: 0, name: "id".to_string() },
            Step::SetAttribute { node: 0, name: "class".to_string(), value: "b".to_string() },
            Step::RemoveListener { node: 0, trigger: "click".to_string(), take: 1 },
            Step::AddListener {
                node: 0,
                trigger: "keyup".to_string(),
                handler: EventHandler::Msg(()),
            },
            Step::ReplaceText { take: 2, text: "after".to_string() },
            Step::StoreUp,
            Step::Keep(4),
            Step::StoreUp,
            Step::StoreUp,
            Step::SetProperty { node: 4, name: "checked".to_string(), value: "true".to_string() },
        ]
    );
    assert!(plan.pending.is_empty());
}
