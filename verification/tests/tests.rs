use std::collections::HashMap;

use euca::diff;
use euca::dom::{Dom, DomVec};
use euca::patch::{Patch, PatchSet};
use euca::test::{Cmd, Msg};
use euca::vdom::{DomItem, EventHandler};

/// The identifier standing for a fake component's constructor.
const FAKE_CREATE: u64 = 1;
/// The identifier standing for a second fake component's constructor.
const FAKE_CREATE2: u64 = 2;

/// Number the storage entries of a rendered walk: one per node, listener and node end.
fn gen_storage(items: &Vec<DomItem<Msg>>) -> Vec<u32> {
    let mut storage = vec![];
    let mut n: u32 = 0;
    for i in items {
        match i {
            DomItem::Element { .. }
            | DomItem::Text(_)
            | DomItem::Event { .. }
            | DomItem::Component { .. }
            | DomItem::Up => {
                storage.push(n);
                n += 1;
            }
            _ => {}
        }
    }
    storage
}

fn create(name: &str) -> Patch<Msg, u32> {
    Patch::CreateElement { element: name.to_string() }
}

fn create_text(text: &str) -> Patch<Msg, u32> {
    Patch::CreateText { text: text.to_string() }
}

fn set_attr(name: &str, value: &str) -> Patch<Msg, u32> {
    Patch::SetAttribute { name: name.to_string(), value: value.to_string() }
}

fn listener(trigger: &str) -> Patch<Msg, u32> {
    Patch::AddListener { trigger: trigger.to_string(), handler: EventHandler::Msg(()) }
}

fn diff_doms(old: &Dom<Msg>, new: &Dom<Msg>) -> PatchSet<Msg, u32> {
    let o = old.dom_iter();
    let storage = gen_storage(&o);
    diff::diff(o, new.dom_iter(), storage)
}

fn check(patch_set: PatchSet<Msg, u32>, patches: Vec<Patch<Msg, u32>>, keyed: Vec<(u64, Vec<Patch<Msg, u32>>)>) {
    assert_eq!(patch_set.patches, patches);
    let mut expected: HashMap<u64, Vec<Patch<Msg, u32>>> = HashMap::new();
    for (k, v) in keyed {
        expected.insert(k, v);
    }
    assert_eq!(patch_set.keyed, expected);
}

#[test]
fn empty_patch_set_is_noop() {
    assert!(PatchSet::<Msg, Cmd>::new().is_noop());
}

#[test]
fn not_noop() {
    let patch_set: PatchSet<Msg, Cmd> = vec![Patch::CreateElement { element: "".to_string() }].into();

    assert!(!patch_set.is_noop());
}

#[test]
fn keyed_not_noop() {
    let mut keyed: HashMap<_, Vec<Patch<Msg, Cmd>>> = HashMap::new();
    keyed.insert(1, vec![Patch::CreateElement { element: "".to_string() }, Patch::Up]);

    let patch_set = PatchSet { patches: vec![Patch::ReferenceKey(1), Patch::Up], keyed };

    assert!(!patch_set.is_noop());
}

#[test]
fn noop_patch_set_is_noop() {
    let patch_set: PatchSet<Msg, Cmd> = vec![Patch::CopyElement(()), Patch::Up].into();

    assert!(patch_set.is_noop());
}

#[test]
fn keyed_noop_patch_set_is_noop() {
    let mut keyed: HashMap<_, Vec<Patch<Msg, Cmd>>> = HashMap::new();
    keyed.insert(1, vec![Patch::CopyElement(()), Patch::Up]);
    let patch_set = PatchSet { patches: vec![Patch::ReferenceKey(1), Patch::Up], keyed };

    assert!(patch_set.is_noop());
}

#[test]
fn basic_diff() {
    let storage: Vec<u32> = vec![];
    let new = Dom::<Msg>::elem("span");

    let patch_set = diff::diff(vec![], new.dom_iter(), storage);

    check(patch_set, vec![create("span"), Patch::Up], vec![]);
}

#[test]
fn diff_add_text() {
    let storage: Vec<u32> = vec![];
    let new = Dom::<Msg>::elem("div").push(Dom::text("text"));

    let patch_set = diff::diff(vec![], new.dom_iter(), storage);

    check(patch_set, vec![create("div"), create_text("text"), Patch::Up, Patch::Up], vec![]);
}

#[test]
fn diff_empty_create_component() {
    let storage: Vec<u32> = vec![];
    let new = Dom::<Msg>::component((), FAKE_CREATE);

    let patch_set = diff::diff(vec![], new.dom_iter(), storage);

    check(
        patch_set,
        vec![Patch::CreateComponent { msg: (), create: FAKE_CREATE }, Patch::Up],
        vec![],
    );
}

fn two_items(a: &str, b: &str, id_a: &str, id_b: &str) -> Dom<Msg> {
    Dom::elem("div")
        .push(Dom::elem(a).attr("class", "item").attr("id", id_a).event("onclick", ()))
        .push(Dom::elem(b).attr("class", "item").attr("id", id_b).event("onclick", ()))
}

#[test]
fn new_child_nodes() {
    let old = Dom::<Msg>::elem("div");
    let new = two_items("b", "i", "id1", "id2");

    check(
        diff_doms(&old, &new),
        vec![
            Patch::CopyElement(0),
            create("b"),
            set_attr("class", "item"),
            set_attr("id", "id1"),
            listener("onclick"),
            Patch::Up,
            create("i"),
            set_attr("class", "item"),
            set_attr("id", "id2"),
            listener("onclick"),
            Patch::Up,
            Patch::Up,
        ],
        vec![],
    );
}

#[test]
fn from_empty() {
    let new = two_items("b", "i", "id1", "id2");

    check(
        diff::diff(vec![], new.dom_iter(), Vec::<u32>::new()),
        vec![
            create("div"),
            create("b"),
            set_attr("class", "item"),
            set_attr("id", "id1"),
            listener("onclick"),
            Patch::Up,
            create("i"),
            set_attr("class", "item"),
            set_attr("id", "id2"),
            listener("onclick"),
            Patch::Up,
            Patch::Up,
        ],
        vec![],
    );
}

#[test]
fn to_empty() {
    let old = two_items("b", "i", "id1", "id2");
    let o = old.dom_iter();
    let storage = gen_storage(&o);

    check(diff::diff(o, vec![], storage), vec![Patch::RemoveElement(0)], vec![]);
}

#[test]
fn to_empty_vec() {
    let old: DomVec<Msg> = vec![
        Dom::elem("b").attr("class", "item").attr("id", "id1").event("onclick", ()),
        Dom::elem("i").attr("class", "item").attr("id", "id2").event("onclick", ()),
    ]
    .into();
    let o = old.dom_iter();
    let storage = gen_storage(&o);

    // b: element 0, listener 1, end 2; i: element 3, listener 4, end 5
    check(diff::diff(o, vec![], storage), vec![Patch::RemoveElement(0), Patch::RemoveElement(3)], vec![]);
}

#[test]
fn no_difference() {
    let old = Dom::<Msg>::elem("div");
    let new = Dom::elem("div");

    let patch_set = diff_doms(&old, &new);
    assert!(patch_set.is_noop());
    check(patch_set, vec![Patch::CopyElement(0), Patch::Up], vec![]);
}

#[test]
fn basic_diff_with_element() {
    let old = Dom::<Msg>::elem("div");
    let new = Dom::elem("span");

    check(diff_doms(&old, &new), vec![Patch::RemoveElement(0), create("span"), Patch::Up], vec![]);
}

#[test]
fn diff_attributes() {
    let old = Dom::<Msg>::elem("div").attr("name", "value");
    let new = Dom::elem("div").attr("name", "new value");

    check(
        diff_doms(&old, &new),
        vec![Patch::CopyElement(0), set_attr("name", "new value"), Patch::Up],
        vec![],
    );
}

#[test]
fn diff_checked() {
    let old = Dom::<Msg>::elem("input").attr("checked", "false");
    let new = Dom::elem("input").attr("checked", "false");

    let patch_set = diff_doms(&old, &new);
    assert!(!patch_set.is_noop());
    check(patch_set, vec![Patch::CopyElement(0), set_attr("checked", "false"), Patch::Up], vec![]);
}

#[test]
fn old_child_nodes_with_element() {
    let old = two_items("b", "i", "id", "id");
    let new = Dom::elem("div");

    // div 0, b 1, listener 2, end 3, i 4, listener 5, end 6, end 7
    check(
        diff_doms(&old, &new),
        vec![Patch::CopyElement(0), Patch::RemoveElement(1), Patch::RemoveElement(4), Patch::Up],
        vec![],
    );
}

#[test]
fn old_child_nodes_with_element_and_child() {
    let old = two_items("b", "i", "id", "id");
    let new = Dom::elem("div").push(Dom::elem("i"));

    check(
        diff_doms(&old, &new),
        vec![
            Patch::CopyElement(0),
            Patch::RemoveElement(1),
            create("i"),
            Patch::Up,
            Patch::RemoveElement(4),
            Patch::Up,
        ],
        vec![],
    );
}

#[test]
fn assorted_child_nodes() {
    let old = Dom::<Msg>::elem("div")
        .push(Dom::elem("h1").attr("id", "id").event("onclick", ()).push(Dom::text("h1")))
        .push(Dom::elem("p").attr("class", "item").push(Dom::text("paragraph1")))
        .push(Dom::elem("p").attr("class", "item").push(Dom::text("paragraph2")))
        .push(Dom::elem("p").attr("class", "item").attr("style", "").push(Dom::text("paragraph3")));

    let new = Dom::elem("div")
        .push(Dom::elem("h1").attr("id", "id").event("onclick", ()).push(Dom::text("header")))
        .push(
            Dom::elem("p")
                .attr("class", "item")
                .push(Dom::elem("b").push(Dom::text("bold")))
                .push(Dom::text("paragraph1")),
        )
        .push(Dom::elem("button").event("click", ()).push(Dom::text("submit")));

    check(
        diff_doms(&old, &new),
        vec![
            Patch::CopyElement(0),
            Patch::CopyElement(1),
            Patch::CopyListener(2),
            Patch::ReplaceText { take: 3, text: "header".to_string() },
            Patch::Up,
            Patch::Up,
            Patch::CopyElement(6),
            Patch::RemoveText(7),
            create("b"),
            create_text("bold"),
            Patch::Up,
            Patch::Up,
            create_text("paragraph1"),
            Patch::Up,
            Patch::Up,
            Patch::RemoveElement(10),
            create("button"),
            listener("click"),
            create_text("submit"),
            Patch::Up,
            Patch::Up,
            Patch::RemoveElement(14),
            Patch::Up,
        ],
        vec![],
    );
}

#[test]
fn diff_old_child_nodes_with_new_element() {
    let old = Dom::<Msg>::elem("span")
        .push(Dom::elem("b").attr("class", "item").attr("id", "id").event("onclick", ()))
        .push(Dom::elem("i").attr("class", "item").attr("id", "id").event("onclick", ()));
    let new = Dom::elem("div");

    check(diff_doms(&old, &new), vec![Patch::RemoveElement(0), create("div"), Patch::Up], vec![]);
}

#[test]
fn replace_element_with_text() {
    let old = Dom::<Msg>::elem("div");
    let new = Dom::text("div");

    check(diff_doms(&old, &new), vec![Patch::RemoveElement(0), create_text("div"), Patch::Up], vec![]);
}

#[test]
fn replace_text_with_element() {
    let old = Dom::<Msg>::text("div");
    let new = Dom::elem("div");

    check(diff_doms(&old, &new), vec![Patch::RemoveText(0), create("div"), Patch::Up], vec![]);
}

#[test]
fn inner_html_noop() {
    let old = Dom::<Msg>::elem("div").inner_html("html");
    let new = Dom::elem("div").inner_html("html");

    check(diff_doms(&old, &new), vec![Patch::CopyElement(0), Patch::Up], vec![]);
}

#[test]
fn inner_html_add() {
    let old = Dom::<Msg>::elem("div");
    let new = Dom::elem("div").inner_html("html");

    check(
        diff_doms(&old, &new),
        vec![Patch::CopyElement(0), Patch::SetInnerHtml("html".to_string()), Patch::Up],
        vec![],
    );
}

#[test]
fn inner_html_change() {
    let old = Dom::<Msg>::elem("div").inner_html("toml");
    let new = Dom::elem("div").inner_html("html");

    check(
        diff_doms(&old, &new),
        vec![Patch::CopyElement(0), Patch::SetInnerHtml("html".to_string()), Patch::Up],
        vec![],
    );
}

#[test]
fn inner_html_remove() {
    let old = Dom::<Msg>::elem("div").inner_html("html");
    let new = Dom::elem("div");

    check(diff_doms(&old, &new), vec![Patch::CopyElement(0), Patch::UnsetInnerHtml, Patch::Up], vec![]);
}

#[test]
fn inner_html_replace() {
    let old = Dom::<Msg>::elem("div").inner_html("html");
    let new = Dom::elem("div").push(Dom::text("html"));

    check(
        diff_doms(&old, &new),
        vec![Patch::CopyElement(0), Patch::UnsetInnerHtml, create_text("html"), Patch::Up, Patch::Up],
        vec![],
    );
}

#[test]
fn inner_html_replace_with_children() {
    let old = Dom::<Msg>::elem("div").inner_html("html");
    let new = Dom::elem("div").push(Dom::elem("div").inner_html("html"));

    check(
        diff_doms(&old, &new),
        vec![
            Patch::CopyElement(0),
            Patch::UnsetInnerHtml,
            create("div"),
            Patch::SetInnerHtml("html".to_string()),
            Patch::Up,
            Patch::Up,
        ],
        vec![],
    );
}

#[test]
fn inner_html_replace_children() {
    let old = Dom::<Msg>::elem("div").push(Dom::elem("div").inner_html("html"));
    let new = Dom::elem("div").inner_html("html");

    check(
        diff_doms(&old, &new),
        vec![
            Patch::CopyElement(0),
            Patch::RemoveElement(1),
            Patch::SetInnerHtml("html".to_string()),
            Patch::Up,
        ],
        vec![],
    );
}

#[test]
fn diff_basic_component() {
    let old = Dom::<Msg>::elem("div");
    let new = Dom::elem("div").push(Dom::component((), FAKE_CREATE));

    check(
        diff_doms(&old, &new),
        vec![
            Patch::CopyElement(0),
            Patch::CreateComponent { msg: (), create: FAKE_CREATE },
            Patch::Up,
            Patch::Up,
        ],
        vec![],
    );
}

#[test]
fn diff_two_components() {
    let old = Dom::<Msg>::elem("div").push(Dom::component((), FAKE_CREATE));
    let new = Dom::elem("div").push(Dom::component((), FAKE_CREATE2));

    check(
        diff_doms(&old, &new),
        vec![
            Patch::CopyElement(0),
            Patch::RemoveComponent(1),
            Patch::CreateComponent { msg: (), create: FAKE_CREATE2 },
            Patch::Up,
            Patch::Up,
        ],
        vec![],
    );
}

#[test]
fn diff_add_nested_component() {
    let old = Dom::<Msg>::elem("div")
        .push(Dom::elem("div").push(Dom::elem("div")).push(Dom::elem("div")).push(Dom::elem("div")))
        .push(Dom::elem("div"));
    let new = Dom::elem("div")
        .push(
            Dom::elem("div")
                .push(Dom::elem("div"))
                .push(Dom::elem("div"))
                .push(Dom::elem("div"))
                .push(Dom::component((), FAKE_CREATE)),
        )
        .push(Dom::elem("div"));

    // div 0, div 1, div 2, end 3, div 4, end 5, div 6, end 7, end 8, div 9, end 10, end 11
    check(
        diff_doms(&old, &new),
        vec![
            Patch::CopyElement(0),
            Patch::CopyElement(1),
            Patch::CopyElement(2),
            Patch::Up,
            Patch::CopyElement(4),
            Patch::Up,
            Patch::CopyElement(6),
            Patch::Up,
            Patch::CreateComponent { msg: (), create: FAKE_CREATE },
            Patch::Up,
            Patch::Up,
            Patch::CopyElement(9),
            Patch::Up,
            Patch::Up,
        ],
        vec![],
    );
}

fn nested_component() -> Dom<Msg> {
    Dom::elem("div")
        .push(
            Dom::elem("div")
                .push(Dom::elem("div"))
                .push(Dom::component((), FAKE_CREATE))
                .push(Dom::elem("div")),
        )
        .push(Dom::elem("div"))
}

#[test]
fn diff_copy_nested_component() {
    let old = nested_component();
    let new = nested_component();

    // div 0, div 1, div 2, end 3, component 4, end 5, div 6, end 7, end 8, div 9, end 10, end 11
    let patch_set = diff_doms(&old, &new);
    assert!(patch_set.is_noop());
    check(
        patch_set,
        vec![
            Patch::CopyElement(0),
            Patch::CopyElement(1),
            Patch::CopyElement(2),
            Patch::Up,
            Patch::CopyComponent(4),
            Patch::Up,
            Patch::CopyElement(6),
            Patch::Up,
            Patch::Up,
            Patch::CopyElement(9),
            Patch::Up,
            Patch::Up,
        ],
        vec![],
    );
}

#[test]
fn diff_remove_nested_component() {
    let old = nested_component();
    let new = Dom::elem("div")
        .push(Dom::elem("div").push(Dom::elem("div")).push(Dom::elem("div")))
        .push(Dom::elem("div"));

    check(
        diff_doms(&old, &new),
        vec![
            Patch::CopyElement(0),
            Patch::CopyElement(1),
            Patch::CopyElement(2),
            Patch::Up,
            Patch::RemoveComponent(4),
            create("div"),
            Patch::Up,
            Patch::RemoveElement(6),
            Patch::Up,
            Patch::CopyElement(9),
            Patch::Up,
            Patch::Up,
        ],
        vec![],
    );
}

const YUP: u64 = 1;
const NOPE: u64 = 2;
const YUP_YUP: u64 = 3;

#[test]
fn diff_keyed_element_equal() {
    let old = Dom::<Msg>::elem("div").push(Dom::elem("div").key(YUP));
    let new = Dom::elem("div").push(Dom::elem("div").key(YUP));

    let patch_set = diff_doms(&old, &new);
    assert!(!patch_set.is_noop());
    check(
        patch_set,
        vec![Patch::CopyElement(0), Patch::MoveElement(1), Patch::Up, Patch::Up],
        vec![],
    );
}

#[test]
fn diff_keyed_element_not_equal() {
    let old = Dom::<Msg>::elem("div").push(Dom::elem("div").key(YUP));
    let new = Dom::elem("div").push(Dom::elem("div").key(NOPE));

    check(
        diff_doms(&old, &new),
        vec![Patch::CopyElement(0), Patch::ReferenceKey(NOPE), Patch::Up, Patch::RemoveElement(1)],
        vec![(NOPE, vec![create("div"), Patch::Up])],
    );
}

#[test]
fn diff_keyed_element_move_key() {
    let old = Dom::<Msg>::elem("div").push(Dom::elem("div")).push(Dom::elem("div").key(YUP));
    let new = Dom::elem("div").push(Dom::elem("div").key(YUP)).push(Dom::elem("div"));

    // div 0, div 1, end 2, div(yup) 3, end 4, end 5
    check(
        diff_doms(&old, &new),
        vec![
            Patch::CopyElement(0),
            Patch::RemoveElement(1),
            Patch::ReferenceKey(YUP),
            create("div"),
            Patch::Up,
            Patch::Up,
        ],
        vec![(YUP, vec![Patch::MoveElement(3), Patch::Up])],
    );
}

#[test]
fn diff_keyed_from_empty() {
    let new = Dom::<Msg>::elem("div").push(Dom::elem("div").key(YUP));

    check(
        diff::diff(vec![], new.dom_iter(), Vec::<u32>::new()),
        vec![create("div"), Patch::ReferenceKey(YUP), Patch::Up],
        vec![(YUP, vec![create("div"), Patch::Up])],
    );
}

#[test]
fn diff_keyed_to_empty() {
    let old = Dom::<Msg>::elem("div").push(Dom::elem("div").key(YUP));
    let o = old.dom_iter();
    let storage = gen_storage(&o);

    check(
        diff::diff(o, vec![], storage),
        vec![Patch::RemoveElement(0), Patch::RemoveElement(1)],
        vec![],
    );
}

#[test]
fn diff_nested_keyed_element_swap() {
    let old = Dom::<Msg>::elem("div").push(Dom::elem("div").key(YUP).push(Dom::elem("span").key(YUP_YUP)));
    let new = Dom::elem("div").push(Dom::elem("span").key(YUP_YUP).push(Dom::elem("div").key(YUP)));

    // div 0, div(yup) 1, span(yup yup) 2, end 3, end 4, end 5
    check(
        diff_doms(&old, &new),
        vec![Patch::CopyElement(0), Patch::ReferenceKey(YUP_YUP), Patch::Up],
        vec![
            (YUP_YUP, vec![Patch::MoveElement(2), Patch::ReferenceKey(YUP), Patch::Up]),
            (YUP, vec![Patch::MoveElement(1), Patch::Up]),
        ],
    );
}

#[test]
fn diff_duplicate_key() {
    let old = Dom::<Msg>::elem("div").push(Dom::elem("div").key(YUP)).push(Dom::elem("span").key(YUP));
    let new = Dom::elem("div")
        .push(Dom::elem("div"))
        .push(Dom::elem("div").key(YUP))
        .push(Dom::elem("span").key(YUP));

    // div 0, div(yup) 1, end 2, span(yup) 3, end 4, end 5
    check(
        diff_doms(&old, &new),
        vec![
            Patch::CopyElement(0),
            create("div"),
            Patch::Up,
            Patch::RemoveElement(3),
            Patch::ReferenceKey(YUP),
            create("span"),
            Patch::Up,
            Patch::Up,
        ],
        vec![(YUP, vec![Patch::MoveElement(1), Patch::Up])],
    );
}

#[test]
fn diff_remove_attr() {
    let old = Dom::<Msg>::elem("div").attr("name", "value").push(Dom::text("text"));
    let new = Dom::elem("div").push(Dom::text("text"));

    // div 0, text 1, end 2, end 3
    check(
        diff_doms(&old, &new),
        vec![
            Patch::CopyElement(0),
            Patch::RemoveAttribute("name".to_string()),
            create_text("text"),
            Patch::Up,
            Patch::RemoveText(1),
            Patch::Up,
        ],
        vec![],
    );
}

#[test]
fn diff_remove_event_handler() {
    let old = Dom::<Msg>::elem("div").event("onclick", ()).push(Dom::text("text"));
    let new = Dom::elem("div").push(Dom::text("text"));

    // div 0, listener 1, text 2, end 3, end 4
    check(
        diff_doms(&old, &new),
        vec![
            Patch::CopyElement(0),
            Patch::RemoveListener { trigger: "onclick".to_string(), take: 1 },
            create_text("text"),
            Patch::Up,
            Patch::RemoveText(2),
            Patch::Up,
        ],
        vec![],
    );
}

/// The storage entry a patch takes over from the old dom, if any.
fn handle(p: &Patch<Msg, u32>) -> Option<u32> {
    match p {
        Patch::RemoveElement(s)
        | Patch::CopyElement(s)
        | Patch::MoveElement(s)
        | Patch::RemoveText(s)
        | Patch::CopyText(s)
        | Patch::CopyComponent(s)
        | Patch::MoveComponent(s)
        | Patch::RemoveComponent(s)
        | Patch::CopyListener(s) => Some(*s),
        Patch::ReplaceText { take, .. }
        | Patch::UpdateComponent { take, .. }
        | Patch::MupdateComponent { take, .. }
        | Patch::RemoveListener { take, .. } => Some(*take),
        _ => None,
    }
}

#[test]
fn diff_takes_storage_in_order_once() {
    let old = Dom::<Msg>::elem("div")
        .push(Dom::elem("h1").attr("id", "id").event("onclick", ()).push(Dom::text("h1")))
        .push(Dom::elem("p").event("onclick", ()).push(Dom::text("paragraph1")))
        .push(Dom::text("tail"))
        .push(Dom::elem("p").attr("style", "").push(Dom::text("paragraph3")));
    let new = Dom::elem("div")
        .push(Dom::elem("h1").attr("id", "other").event("onkeyup", ()).push(Dom::text("header")))
        .push(Dom::text("replaced"))
        .push(Dom::elem("button").event("click", ()).push(Dom::text("submit")));

    let patches = diff_doms(&old, &new).into_patches();
    let handles: Vec<u32> = patches.iter().filter_map(handle).collect();
    // div 0, h1 1, listener 2, text 3, the p at 6 that became text, the text at 11 that
    // became a button and the p at 13 that is gone
    assert_eq!(handles, vec![0, 1, 2, 3, 6, 11, 13]);
    for w in handles.windows(2) {
        assert!(w[0] < w[1]);
    }
}

#[test]
fn keyed_diff_takes_each_entry_once() {
    let doms = vec![
        Dom::<Msg>::elem("div").push(Dom::elem("div")).push(Dom::elem("div").key(1).push(Dom::text("one"))),
        Dom::elem("div").push(Dom::elem("div").key(1).push(Dom::text("one"))).push(Dom::elem("div")),
        Dom::elem("div").push(Dom::elem("div").key(1).push(Dom::elem("span").key(3).event("click", ()))),
        Dom::elem("div").push(Dom::elem("span").key(3).event("click", ()).push(Dom::elem("div").key(1))),
        Dom::elem("div")
            .push(Dom::elem("div"))
            .push(Dom::elem("div").key(1))
            .push(Dom::elem("span").key(1).push(Dom::text("dup"))),
        Dom::elem("div").push(Dom::elem("div").key(2).push(Dom::text("two"))).push(Dom::text("end")),
    ];
    let mut moved = 0;
    for old in &doms {
        for new in &doms {
            let o = old.dom_iter();
            let storage = gen_storage(&o);
            let patch_set = diff::diff(o, new.dom_iter(), storage.clone());
            let mut handles: Vec<u32> = patch_set.patches.iter().filter_map(handle).collect();
            for list in patch_set.keyed.values() {
                handles.extend(list.iter().filter_map(handle));
            }
            moved += handles.len();
            let mut sorted = handles.clone();
            sorted.sort();
            sorted.dedup();
            assert_eq!(sorted.len(), handles.len());
            assert!(handles.iter().all(|h| storage.contains(h)));
        }
    }
    assert!(moved > 0);
}

#[test]
fn to_empty_removes_nested_components() {
    let old = nested_component();
    let o = old.dom_iter();
    let storage = gen_storage(&o);

    // the outer div holds entry 0, the component nested two levels down entry 4
    check(
        diff::diff(o, vec![], storage),
        vec![Patch::RemoveElement(0), Patch::RemoveComponent(4)],
        vec![],
    );
}

#[test]
fn replacing_a_tree_removes_its_components() {
    let old = Dom::<Msg>::elem("div")
        .push(Dom::elem("p").push(Dom::component((), FAKE_CREATE)))
        .push(Dom::elem("div"));
    let new = Dom::elem("div").push(Dom::text("t")).push(Dom::elem("div"));

    // div 0; p 1, component 2, its end 3, p's end 4; div 5, end 6; end 7
    check(
        diff_doms(&old, &new),
        vec![
            Patch::CopyElement(0),
            Patch::RemoveElement(1),
            Patch::RemoveComponent(2),
            create_text("t"),
            Patch::Up,
            Patch::CopyElement(5),
            Patch::Up,
            Patch::Up,
        ],
        vec![],
    );
}

#[test]
fn diff_identical_carries_each_entry_over() {
    let x = Dom::<Msg>::elem("div")
        .attr("id", "a")
        .event("click", ())
        .push(Dom::text("t"))
        .push(Dom::component((), FAKE_CREATE));
    // div 0, listener 1, text 2, its end 3, component 4, its end 5, div end 6
    check(
        diff_doms(&x, &x),
        vec![
            Patch::CopyElement(0),
            Patch::CopyListener(1),
            Patch::CopyText(2),
            Patch::Up,
            Patch::CopyComponent(4),
            Patch::Up,
            Patch::Up,
        ],
        vec![],
    );
}
