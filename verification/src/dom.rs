//! A concrete dom representation.
//!
//! This is a sample, but functional concrete DOM representation that demonstrates how a DOM
//! structure works with other parts of this library. Callbacks are referred to by integer
//! identifiers, as in [`crate::vdom`].
use vstd::prelude::*;
use crate::vdom::{
    DomItem, EventHandler, attached, depth_change, is_keyed, keyless, lemma_attached_concat,
    lemma_attached_wrap, lemma_flat_well_formed, lemma_no_key_refs_concat,
    lemma_well_formed_concat, lemma_well_formed_wrap, nesting, no_key_refs, opens_node,
    well_formed,
};

verus! {

/// A DOM event handler.
#[derive(PartialEq, Debug, Clone)]
pub enum Handler<Message> {
    /// The message that will result from the event this handler is attached to.
    Msg(Message),
    /// A callback that converts a browser event into a message.
    Event(u64),
    /// A callback that converts a browser event into a message, given the stored message.
    MsgEvent(Message, u64),
    /// A callback that converts the value of an input element into a message.
    InputValue(u64),
    /// A callback that converts a browser input event into a message.
    InputEvent(u64),
}

/// A DOM event.
#[derive(Debug, Clone)]
pub struct Event<Message> {
    /// The event trigger (e.g. click, change, etc.).
    trigger: String,
    /// The handler for this event.
    handler: Handler<Message>,
}

/// Representation of a DOM node.
#[derive(Debug, Clone)]
pub enum Node<Message> {
    /// A DOM element node.
    Elem {
        /// The element name/type.
        name: String,
    },
    /// A DOM text node.
    Text {
        /// The text of this node.
        text: String,
    },
    /// A component.
    Component {
        /// A message to pass to the component.
        msg: Message,
        /// The identifier of the function that creates the component.
        create: u64,
    },
}

impl<Message> Node<Message> {
    /// Generate an element node of the given type.
    pub fn elem(name: &str) -> (r: Self)
        ensures
            r matches Node::Elem { name: n } && n@ == name@,
    {
        Node::Elem { name: name.to_owned() }
    }

    /// Generate a text node with the given value.
    pub fn text(value: String) -> (r: Self)
        ensures
            r == (Node::<Message>::Text { text: value }),
    {
        Node::Text { text: value }
    }

    /// Generate a component.
    pub fn component(msg: Message, create: u64) -> (r: Self)
        ensures
            r == (Node::Component { msg, create }),
    {
        Node::Component { msg, create }
    }
}

/// An attribute on a node.
#[derive(PartialEq, Debug, Clone)]
pub struct Attr {
    /// The name of the attribute.
    name: String,
    /// The value of the attribute.
    value: String,
}

impl Attr {
    /// The name of the attribute.
    pub closed spec fn name_spec(self) -> String {
        self.name
    }

    /// The value of the attribute.
    pub closed spec fn value_spec(self) -> String {
        self.value
    }

    /// Create an attribute.
    pub fn new(name: &str, value: &str) -> (r: Self)
        ensures
            r.name_spec()@ == name@,
            r.value_spec()@ == value@,
    {
        Attr { name: name.to_owned(), value: value.to_owned() }
    }
}

/// A node in the DOM.
#[derive(Debug)]
pub struct Dom<Message> {
    /// The element for this node.
    element: Node<Message>,
    /// The innerHtml value for this node.
    inner_html: Option<String>,
    /// The key for this node.
    key: Option<u64>,
    /// Attributes on this node.
    pub attributes: Vec<Attr>,
    /// Event handlers associated with this node.
    pub events: Vec<Event<Message>>,
    /// Children of this node.
    pub children: Vec<Dom<Message>>,
}

/// The event handler a dom handler stands for in the walk.
pub open spec fn handler_item<M>(h: Handler<M>) -> EventHandler<M> {
    match h {
        Handler::Msg(m) => EventHandler::Msg(m),
        Handler::Event(f) => EventHandler::Fn(f),
        Handler::MsgEvent(m, f) => EventHandler::FnMsg(m, f),
        Handler::InputValue(f) => EventHandler::InputValue(f),
        Handler::InputEvent(f) => EventHandler::InputEvent(f),
    }
}

/// `b` is `a` with its messages cloned.
pub open spec fn handler_cloned<M: Clone>(a: EventHandler<M>, b: EventHandler<M>) -> bool {
    match (a, b) {
        (EventHandler::Msg(x), EventHandler::Msg(y)) => cloned(x, y),
        (EventHandler::Fn(f), EventHandler::Fn(g)) => f == g,
        (EventHandler::FnMsg(x, f), EventHandler::FnMsg(y, g)) => cloned(x, y) && f == g,
        (EventHandler::InputValue(f), EventHandler::InputValue(g)) => f == g,
        (EventHandler::InputEvent(f), EventHandler::InputEvent(g)) => f == g,
        _ => false,
    }
}

/// `b` is the item `a` with its messages cloned.
pub open spec fn item_cloned<M: Clone>(a: DomItem<M>, b: DomItem<M>) -> bool {
    match (a, b) {
        (DomItem::Element { name: n1, key: k1 }, DomItem::Element { name: n2, key: k2 }) => n1
            == n2 && k1 == k2,
        (DomItem::Text(t1), DomItem::Text(t2)) => t1 == t2,
        (DomItem::UnsafeInnerHtml(h1), DomItem::UnsafeInnerHtml(h2)) => h1 == h2,
        (DomItem::Attr { name: n1, value: v1 }, DomItem::Attr { name: n2, value: v2 }) => n1 == n2
            && v1 == v2,
        (DomItem::Event { trigger: t1, handler: h1 }, DomItem::Event { trigger: t2, handler: h2 }) =>
            t1 == t2 && handler_cloned(h1, h2),
        (DomItem::Up, DomItem::Up) => true,
        (
            DomItem::Component { key: k1, msg: m1, create: c1 },
            DomItem::Component { key: k2, msg: m2, create: c2 },
        ) => k1 == k2 && cloned(m1, m2) && c1 == c2,
        (DomItem::Key(a), DomItem::Key(b)) => a == b,
        _ => false,
    }
}

/// `b` is the walk `a` with its messages cloned.
pub open spec fn items_cloned<M: Clone>(a: Seq<DomItem<M>>, b: Seq<DomItem<M>>) -> bool {
    &&& a.len() == b.len()
    &&& forall|k: int| 0 <= k < a.len() ==> item_cloned(#[trigger] a[k], b[k])
}

/// The item of the walk that stands for a node itself.
pub open spec fn node_item<M>(element: Node<M>, key: Option<u64>) -> DomItem<M> {
    match element {
        Node::Elem { name } => DomItem::Element { name, key },
        Node::Text { text } => DomItem::Text(text),
        Node::Component { msg, create } => DomItem::Component { key, msg, create },
    }
}

/// The items of a list of attributes.
pub open spec fn attr_items<M>(attrs: Seq<Attr>) -> Seq<DomItem<M>> {
    attrs.map_values(|a: Attr| DomItem::Attr { name: a.name_spec(), value: a.value_spec() })
}

/// The item of an inner html value, if any.
pub open spec fn inner_items<M>(html: Option<String>) -> Seq<DomItem<M>> {
    match html {
        Some(h) => seq![DomItem::UnsafeInnerHtml(h)],
        None => seq![],
    }
}

impl<Message> Event<Message> {
    /// The trigger of this event.
    pub closed spec fn trigger_spec(self) -> String {
        self.trigger
    }

    /// The handler of this event.
    pub closed spec fn handler_spec(self) -> Handler<Message> {
        self.handler
    }
}

/// The items of a list of events.
pub open spec fn event_items<M>(events: Seq<Event<M>>) -> Seq<DomItem<M>> {
    events.map_values(
        |e: Event<M>| DomItem::Event { trigger: e.trigger_spec(), handler: handler_item(e.handler_spec()) },
    )
}

/// The walk of a list of trees, one after the other.
pub closed spec fn flatten_all<M>(cs: Seq<Dom<M>>) -> Seq<DomItem<M>>
    decreases cs,
{
    if cs.len() == 0 {
        seq![]
    } else {
        flatten(cs[0]) + flatten_all(cs.drop_first())
    }
}

/// The depth first walk of a tree: the node, its attributes, its inner html, its events, the
/// walks of its children, and the `Up` that closes it.
pub closed spec fn flatten<M>(d: Dom<M>) -> Seq<DomItem<M>>
    decreases d,
{
    seq![node_item(d.element_spec(), d.key_spec())] + attr_items(d.attributes@) + inner_items(
        d.inner_html_spec(),
    ) + event_items(d.events@) + flatten_all(d.children@) + seq![DomItem::Up]
}

/// The walk of a tree: the item of the node, its attributes, its inner html, its events, the
/// walks of its children one after the other, and the `Up` that closes it.
pub proof fn lemma_flatten<M>(d: Dom<M>)
    ensures
        flatten(d) == seq![node_item(d.element_spec(), d.key_spec())] + attr_items(
            d.attrs_view(),
        ) + inner_items(d.inner_html_spec()) + event_items(d.events_view()) + flatten_all(
            d.children_view(),
        ) + seq![DomItem::Up],
{
}

/// The walk of a tree (what `dom_iter` gives, up to cloned messages) carries each event
/// handler of the tree over as a handler of the same kind, with its trigger, right after the
/// node's attributes and inner html: a message as that message, a callback of the browser
/// event as the same callback, a callback given a message as the same callback with that
/// message, a callback of an input's value or of an input event as the same callback.
pub proof fn law_walk_keeps_handlers<M: Clone>(d: Dom<M>, r: Seq<DomItem<M>>, j: int)
    requires
        items_cloned(flatten(d), r),
        0 <= j < d.events_view().len(),
    ensures
        ({
            let e = d.events_view()[j];
            let i = 1 + d.attrs_view().len() + inner_items::<M>(d.inner_html_spec()).len() + j;
            &&& r[i] is Event
            &&& r[i]->trigger == e.trigger_spec()
            &&& match (e.handler_spec(), r[i]->handler) {
                (Handler::Msg(a), EventHandler::Msg(b)) => cloned(a, b),
                (Handler::Event(f), EventHandler::Fn(g)) => f == g,
                (Handler::MsgEvent(a, f), EventHandler::FnMsg(b, g)) => cloned(a, b) && f == g,
                (Handler::InputValue(f), EventHandler::InputValue(g)) => f == g,
                (Handler::InputEvent(f), EventHandler::InputEvent(g)) => f == g,
                _ => false,
            }
        }),
{
    lemma_flatten(d);
    let a = attr_items::<M>(d.attrs_view());
    let h = inner_items::<M>(d.inner_html_spec());
    let ev = event_items(d.events_view());
    let head = seq![node_item::<M>(d.element_spec(), d.key_spec())];
    let f = flatten(d);
    let i = 1 + a.len() + h.len() + j;
    assert(f[i] == ev[j]);
    assert(item_cloned(f[i], r[i]));
}

/// The walk of a list of trees: their walks one after the other.
pub proof fn lemma_flatten_all<M>(cs: Seq<Dom<M>>)
    ensures
        cs.len() == 0 ==> flatten_all(cs) == Seq::<DomItem<M>>::empty(),
        cs.len() > 0 ==> flatten_all(cs) == flatten(cs[0]) + flatten_all(cs.drop_first()),
{
}

impl<Message> Dom<Message> {
    /// The node of this tree.
    pub closed spec fn element_spec(self) -> Node<Message> {
        self.element
    }

    /// The inner html of this tree.
    pub closed spec fn inner_html_spec(self) -> Option<String> {
        self.inner_html
    }

    /// The key of this tree.
    pub closed spec fn key_spec(self) -> Option<u64> {
        self.key
    }

    /// The attributes of this tree.
    pub closed spec fn attrs_view(self) -> Seq<Attr> {
        self.attributes@
    }

    /// The event handlers of this tree.
    pub closed spec fn events_view(self) -> Seq<Event<Message>> {
        self.events@
    }

    /// The children of this tree.
    pub closed spec fn children_view(self) -> Seq<Dom<Message>> {
        self.children@
    }
}


/// The walk of a list of trees is the walks of its parts one after the other.
proof fn lemma_flatten_all_concat<M>(a: Seq<Dom<M>>, b: Seq<Dom<M>>)
    ensures
        flatten_all(a + b) == flatten_all(a) + flatten_all(b),
    decreases a.len(),
{
    if a.len() == 0 {
        assert(a + b =~= b);
        assert(flatten_all(a) =~= Seq::<DomItem<M>>::empty());
        assert(flatten_all(a) + flatten_all(b) =~= flatten_all(b));
    } else {
        lemma_flatten_all_concat(a.drop_first(), b);
        assert((a + b).drop_first() =~= a.drop_first() + b);
        assert((a + b)[0] == a[0]);
        assert(flatten_all(a + b) =~= flatten_all(a) + flatten_all(b));
    }
}

proof fn lemma_flatten_all_single<M>(d: Dom<M>)
    ensures
        flatten_all(seq![d]) == flatten(d),
{
    assert(seq![d].drop_first() =~= Seq::<Dom<M>>::empty());
    assert(flatten_all(Seq::<Dom<M>>::empty()) =~= Seq::<DomItem<M>>::empty());
    assert(flatten(d) + Seq::<DomItem<M>>::empty() =~= flatten(d));
}

/// The items between a node and its children neither open nor close nodes.
proof fn lemma_middle_flat<M>(d: Dom<M>)
    ensures
        well_formed(attr_items::<M>(d.attributes@) + inner_items::<M>(d.inner_html_spec())
            + event_items(d.events@)),
{
    let z = attr_items::<M>(d.attributes@) + inner_items::<M>(d.inner_html_spec()) + event_items(
        d.events@,
    );
    assert forall|k: int| 0 <= k < z.len() implies depth_change(#[trigger] z[k]) == 0 by {
        let a = attr_items::<M>(d.attributes@);
        let h = inner_items::<M>(d.inner_html_spec());
        if k < a.len() {
            assert(z[k] == a[k]);
        } else if k < a.len() + h.len() {
            assert(z[k] == h[k - a.len()]);
        } else {
            assert(z[k] == event_items(d.events@)[k - a.len() - h.len()]);
        }
    }
    lemma_flat_well_formed(z);
}

/// The walk of a tree is well formed.
pub proof fn lemma_flatten_well_formed<M>(d: Dom<M>)
    ensures
        well_formed(flatten(d)),
    decreases d,
{
    lemma_flatten_all_well_formed(d.children@);
    lemma_middle_flat(d);
    let z = attr_items::<M>(d.attributes@) + inner_items::<M>(d.inner_html_spec()) + event_items(
        d.events@,
    );
    lemma_well_formed_concat(z, flatten_all(d.children@));
    let x = node_item(d.element_spec(), d.key_spec());
    lemma_well_formed_wrap(x, z + flatten_all(d.children@));
    assert(flatten(d) =~= seq![x] + (z + flatten_all(d.children@)) + seq![DomItem::<M>::Up]);
}

/// The walk of a list of trees is well formed.
pub proof fn lemma_flatten_all_well_formed<M>(cs: Seq<Dom<M>>)
    ensures
        well_formed(flatten_all(cs)),
    decreases cs,
{
    if cs.len() == 0 {
        lemma_flat_well_formed(flatten_all(cs));
    } else {
        lemma_flatten_well_formed(cs[0]);
        lemma_flatten_all_well_formed(cs.drop_first());
        lemma_well_formed_concat(flatten(cs[0]), flatten_all(cs.drop_first()));
    }
}

/// In the walk of a tree, every attribute, inner html and event handler stands inside its node,
/// and no item refers to a keyed sub tree.
pub proof fn lemma_flatten_attached<M>(d: Dom<M>)
    ensures
        attached(flatten(d)),
        no_key_refs(flatten(d)),
    decreases d,
{
    lemma_flatten_all_attached(d.children@);
    lemma_flatten_all_well_formed(d.children@);
    lemma_middle_flat(d);
    let z = attr_items::<M>(d.attributes@) + inner_items::<M>(d.inner_html_spec()) + event_items(
        d.events@,
    );
    lemma_well_formed_concat(z, flatten_all(d.children@));
    let x = node_item(d.element_spec(), d.key_spec());
    let body = z + flatten_all(d.children@);
    lemma_attached_wrap(x, body);
    assert(flatten(d) =~= seq![x] + body + seq![DomItem::<M>::Up]);
    assert(no_key_refs(z)) by {
        let a = attr_items::<M>(d.attributes@);
        let h = inner_items::<M>(d.inner_html_spec());
        assert forall|k: int| 0 <= k < z.len() implies !(#[trigger] z[k] is Key) by {
            if k < a.len() {
                assert(z[k] == a[k]);
            } else if k < a.len() + h.len() {
                assert(z[k] == h[k - a.len()]);
            } else {
                assert(z[k] == event_items(d.events@)[k - a.len() - h.len()]);
            }
        }
    }
    lemma_no_key_refs_concat(z, flatten_all(d.children@));
    assert(no_key_refs(seq![x]));
    lemma_no_key_refs_concat(seq![x], body);
    assert(no_key_refs(seq![DomItem::<M>::Up]));
    lemma_no_key_refs_concat(seq![x] + body, seq![DomItem::<M>::Up]);
}

/// In the walk of a list of trees, every attribute, inner html and event handler stands inside
/// its node, and no item refers to a keyed sub tree.
pub proof fn lemma_flatten_all_attached<M>(cs: Seq<Dom<M>>)
    ensures
        attached(flatten_all(cs)),
        no_key_refs(flatten_all(cs)),
    decreases cs,
{
    if cs.len() == 0 {
        assert(flatten_all(cs) =~= Seq::<DomItem<M>>::empty());
    } else {
        lemma_flatten_attached(cs[0]);
        lemma_flatten_well_formed(cs[0]);
        lemma_flatten_all_attached(cs.drop_first());
        lemma_attached_concat(flatten(cs[0]), flatten_all(cs.drop_first()));
        lemma_no_key_refs_concat(flatten(cs[0]), flatten_all(cs.drop_first()));
    }
}

/// Walks related by cloning have the same shape.
pub proof fn lemma_cloned_shape<M: Clone>(a: Seq<DomItem<M>>, b: Seq<DomItem<M>>)
    requires
        items_cloned(a, b),
    ensures
        forall|k: int| 0 <= k <= a.len() ==> #[trigger] nesting(b.take(k)) == nesting(a.take(k)),
        well_formed(a) ==> well_formed(b),
        keyless(a) ==> keyless(b),
        attached(a) ==> attached(b),
        no_key_refs(a) ==> no_key_refs(b),
    decreases a.len(),
{
    if a.len() > 0 {
        lemma_cloned_shape(a.drop_last(), b.drop_last());
        assert forall|k: int| 0 <= k <= a.len() implies #[trigger] nesting(b.take(k)) == nesting(
            a.take(k),
        ) by {
            if k < a.len() {
                assert(a.take(k) =~= a.drop_last().take(k));
                assert(b.take(k) =~= b.drop_last().take(k));
            } else {
                assert(a.take(k) =~= a);
                assert(b.take(k) =~= b);
                assert(a.drop_last().take(a.len() - 1) =~= a.drop_last());
                assert(b.drop_last().take(b.len() - 1) =~= b.drop_last());
                assert(item_cloned(a[a.len() - 1], b[b.len() - 1]));
                assert(depth_change(a.last()) == depth_change(b.last()));
                assert(nesting(b.drop_last()) == nesting(a.drop_last()));
            }
        }
        assert(a.take(a.len() as int) =~= a);
        assert(b.take(b.len() as int) =~= b);
        if keyless(a) {
            assert forall|k: int| 0 <= k < b.len() implies !is_keyed(#[trigger] b[k]) by {
                assert(item_cloned(a[k], b[k]));
                assert(!is_keyed(a[k]));
            }
        }
        if attached(a) {
            assert forall|k: int|
                #![trigger b[k]]
                0 <= k < b.len() && (b[k] is Attr || b[k] is Event || b[k] is UnsafeInnerHtml) implies nesting(
                b.take(k),
            ) > 0 by {
                assert(item_cloned(a[k], b[k]));
                assert(nesting(b.take(k)) == nesting(a.take(k)));
            }
        }
        if no_key_refs(a) {
            assert forall|k: int| 0 <= k < b.len() implies !(#[trigger] b[k] is Key) by {
                assert(item_cloned(a[k], b[k]));
                assert(!(a[k] is Key));
            }
        }
    } else {
        assert forall|k: int| 0 <= k <= a.len() implies #[trigger] nesting(b.take(k)) == nesting(
            a.take(k),
        ) by {
            assert(a.take(k) =~= a);
            assert(b.take(k) =~= b);
        }
    }
}

proof fn lemma_items_cloned_push<M: Clone>(
    a: Seq<DomItem<M>>,
    b: Seq<DomItem<M>>,
    x: DomItem<M>,
    y: DomItem<M>,
)
    requires
        items_cloned(a, b),
        item_cloned(x, y),
    ensures
        items_cloned(a.push(x), b.push(y)),
{
    assert forall|k: int| 0 <= k < a.push(x).len() implies item_cloned(
        #[trigger] a.push(x)[k],
        b.push(y)[k],
    ) by {
        if k < a.len() {
            assert(a.push(x)[k] == a[k]);
            assert(b.push(y)[k] == b[k]);
        }
    }
}

/// Clone a handler.
fn clone_handler<M: Clone>(h: &Handler<M>) -> (r: EventHandler<M>)
    ensures
        handler_cloned(handler_item(*h), r),
{
    match h {
        Handler::Msg(m) => EventHandler::Msg(m.clone()),
        Handler::Event(f) => EventHandler::Fn(*f),
        Handler::MsgEvent(m, f) => EventHandler::FnMsg(m.clone(), *f),
        Handler::InputValue(f) => EventHandler::InputValue(*f),
        Handler::InputEvent(f) => EventHandler::InputEvent(*f),
    }
}

impl<Message> Dom<Message> {
    /// Create a new DOM element node.
    pub fn elem(element: &str) -> (r: Self)
        ensures
            r.element_spec() matches Node::Elem { name } && name@ == element@,
            r.key_spec() is None,
            r.inner_html_spec() is None,
            r.attrs_view().len() == 0,
            r.events_view().len() == 0,
            r.children_view().len() == 0,
    {
        Dom {
            element: Node::elem(element),
            key: None,
            events: Vec::new(),
            attributes: Vec::new(),
            children: Vec::new(),
            inner_html: None,
        }
    }

    /// Create a new DOM text node.
    pub fn text(value: &str) -> (r: Self)
        ensures
            r.element_spec() matches Node::Text { text } && text@ == value@,
            r.key_spec() is None,
            r.inner_html_spec() is None,
            r.attrs_view().len() == 0,
            r.events_view().len() == 0,
            r.children_view().len() == 0,
    {
        Dom {
            element: Node::text(value.to_owned()),
            key: None,
            events: Vec::new(),
            attributes: Vec::new(),
            children: Vec::new(),
            inner_html: None,
        }
    }

    /// Create a component.
    pub fn component(msg: Message, create: u64) -> (r: Self)
        ensures
            r.element_spec() == (Node::Component { msg, create }),
            r.key_spec() is None,
            r.inner_html_spec() is None,
            r.attrs_view().len() == 0,
            r.events_view().len() == 0,
            r.children_view().len() == 0,
    {
        Dom {
            element: Node::component(msg, create),
            key: None,
            events: Vec::new(),
            attributes: Vec::new(),
            children: Vec::new(),
            inner_html: None,
        }
    }

    /// Add a key to this DOM element.
    pub fn key(self, key: u64) -> (r: Self)
        ensures
            r.key_spec() == Some(key),
            r.element_spec() == self.element_spec(),
            r.inner_html_spec() == self.inner_html_spec(),
            r.attrs_view() == self.attrs_view(),
            r.events_view() == self.events_view(),
            r.children_view() == self.children_view(),
    {
        let mut s = self;
        s.key = Some(key);
        s
    }

    /// Set innerHtml on this node. Use with caution as this can be used as an attack vector to
    /// execute arbitrary code in the client's browser.
    pub fn inner_html(self, value: &str) -> (r: Self)
        ensures
            r.inner_html_spec() matches Some(h) && h@ == value@,
            r.element_spec() == self.element_spec(),
            r.key_spec() == self.key_spec(),
            r.attrs_view() == self.attrs_view(),
            r.events_view() == self.events_view(),
            r.children_view() == self.children_view(),
    {
        let mut s = self;
        s.inner_html = Some(value.to_owned());
        s
    }

    /// Add an attribute to this DOM element.
    pub fn attr(self, name: &str, value: &str) -> (r: Self)
        ensures
            r.attrs_view().len() == self.attrs_view().len() + 1,
            r.attrs_view().drop_last() == self.attrs_view(),
            r.attrs_view().last().name_spec()@ == name@,
            r.attrs_view().last().value_spec()@ == value@,
            r.element_spec() == self.element_spec(),
            r.key_spec() == self.key_spec(),
            r.inner_html_spec() == self.inner_html_spec(),
            r.events_view() == self.events_view(),
            r.children_view() == self.children_view(),
    {
        let mut s = self;
        s.attributes.push(Attr::new(name, value));
        assert(s.attributes@.drop_last() =~= self.attributes@);
        s
    }

    /// Add an event listener to this DOM element that always produces the given message.
    pub fn event(self, trigger: &str, msg: Message) -> (r: Self)
        ensures
            r.events_view().len() == self.events_view().len() + 1,
            r.events_view().drop_last() == self.events_view(),
            r.events_view().last().trigger_spec()@ == trigger@,
            r.events_view().last().handler_spec() == Handler::Msg(msg),
            r.element_spec() == self.element_spec(),
            r.key_spec() == self.key_spec(),
            r.inner_html_spec() == self.inner_html_spec(),
            r.attrs_view() == self.attrs_view(),
            r.children_view() == self.children_view(),
    {
        self.on(trigger, Handler::Msg(msg))
    }

    /// Add an event listener to this DOM element.
    pub fn on(self, trigger: &str, handler: Handler<Message>) -> (r: Self)
        ensures
            r.events_view().len() == self.events_view().len() + 1,
            r.events_view().drop_last() == self.events_view(),
            r.events_view().last().trigger_spec()@ == trigger@,
            r.events_view().last().handler_spec() == handler,
            r.element_spec() == self.element_spec(),
            r.key_spec() == self.key_spec(),
            r.inner_html_spec() == self.inner_html_spec(),
            r.attrs_view() == self.attrs_view(),
            r.children_view() == self.children_view(),
    {
        let mut s = self;
        s.events.push(Event { trigger: trigger.to_owned(), handler });
        assert(s.events@.drop_last() =~= self.events@);
        s
    }

    /// Add a change event listener to this DOM element; the callback receives the input's value.
    pub fn onchange(self, handler: u64) -> (r: Self)
        ensures
            r.events_view().len() == self.events_view().len() + 1,
            r.events_view().drop_last() == self.events_view(),
            r.events_view().last().trigger_spec()@ == "change"@,
            r.events_view().last().handler_spec() == Handler::<Message>::InputValue(handler),
            r.element_spec() == self.element_spec(),
            r.key_spec() == self.key_spec(),
            r.inner_html_spec() == self.inner_html_spec(),
            r.attrs_view() == self.attrs_view(),
            r.children_view() == self.children_view(),
    {
        self.on("change", Handler::InputValue(handler))
    }

    /// Add an input event listener to this DOM element.
    pub fn oninput(self, handler: u64) -> (r: Self)
        ensures
            r.events_view().len() == self.events_view().len() + 1,
            r.events_view().drop_last() == self.events_view(),
            r.events_view().last().trigger_spec()@ == "input"@,
            r.events_view().last().handler_spec() == Handler::<Message>::InputEvent(handler),
            r.element_spec() == self.element_spec(),
            r.key_spec() == self.key_spec(),
            r.inner_html_spec() == self.inner_html_spec(),
            r.attrs_view() == self.attrs_view(),
            r.children_view() == self.children_view(),
    {
        self.on("input", Handler::InputEvent(handler))
    }

    /// Append the given element as a child on this DOM element.
    pub fn push(self, child: Dom<Message>) -> (r: Self)
        ensures
            r.children_view() == self.children_view().push(child),
            r.element_spec() == self.element_spec(),
            r.key_spec() == self.key_spec(),
            r.inner_html_spec() == self.inner_html_spec(),
            r.attrs_view() == self.attrs_view(),
            r.events_view() == self.events_view(),
    {
        let mut s = self;
        s.children.push(child);
        s
    }

    /// Append the given elements as children on this DOM element.
    pub fn extend(self, children: Vec<Dom<Message>>) -> (r: Self)
        ensures
            r.children_view() == self.children_view() + children@,
            r.element_spec() == self.element_spec(),
            r.key_spec() == self.key_spec(),
            r.inner_html_spec() == self.inner_html_spec(),
            r.attrs_view() == self.attrs_view(),
            r.events_view() == self.events_view(),
    {
        let mut s = self;
        let mut children = children;
        s.children.append(&mut children);
        s
    }
}

impl<Message: Clone> Dom<Message> {
    /// The depth first walk of this tree, as the items the diff works on: a clone of the
    /// tree's walk, which is well formed.
    pub fn dom_iter(&self) -> (r: Vec<DomItem<Message>>)
        ensures
            items_cloned(flatten(*self), r@),
            well_formed(r@),
            attached(r@),
            no_key_refs(r@),
            keyless(flatten(*self)) ==> keyless(r@),
    {
        let mut out: Vec<DomItem<Message>> = Vec::new();
        self.push_items(&mut out);
        assert(out@.skip(0) =~= out@);
        proof {
            lemma_flatten_well_formed(*self);
            lemma_flatten_attached(*self);
            lemma_cloned_shape(flatten(*self), out@);
        }
        out
    }

    /// Append the walk of this tree to `out`.
    fn push_items(&self, out: &mut Vec<DomItem<Message>>)
        ensures
            final(out)@.len() == old(out)@.len() + flatten(*self).len(),
            final(out)@.take(old(out)@.len() as int) == old(out)@,
            items_cloned(flatten(*self), final(out)@.skip(old(out)@.len() as int)),
        decreases self,
    {
        let ghost start = out@.len() as int;
        let ghost o0 = out@;
        let node = match &self.element {
            Node::Elem { name } => DomItem::Element { name: name.clone(), key: self.key },
            Node::Text { text } => DomItem::Text(text.clone()),
            Node::Component { msg, create } => DomItem::Component {
                key: self.key,
                msg: msg.clone(),
                create: *create,
            },
        };
        out.push(node);
        let ghost head = seq![node_item(self.element_spec(), self.key_spec())];
        assert(items_cloned(head, out@.skip(start)));
        let mut i: usize = 0;
        while i < self.attributes.len()
            invariant
                i <= self.attributes@.len(),
                out@.len() >= start,
                out@.take(start) == o0,
                start == o0.len(),
                items_cloned(head + attr_items::<Message>(self.attributes@.take(i as int)), out@.skip(start)),
            decreases self.attributes.len() - i,
        {
            let a = &self.attributes[i];
            let ghost before = out@;
            out.push(DomItem::Attr { name: a.name.clone(), value: a.value.clone() });
            proof {
                assert(self.attributes@.take(i + 1) =~= self.attributes@.take(i as int).push(*a));
                assert(attr_items::<Message>(self.attributes@.take(i + 1)) =~= attr_items::<Message>(
                    self.attributes@.take(i as int),
                ).push(DomItem::Attr { name: a.name_spec(), value: a.value_spec() }));
                assert(out@.skip(start) =~= before.skip(start).push(out@.last()));
                assert(out@.take(start) =~= before.take(start));
                lemma_items_cloned_push(
                    head + attr_items::<Message>(self.attributes@.take(i as int)),
                    before.skip(start),
                    DomItem::Attr { name: a.name_spec(), value: a.value_spec() },
                    out@.last(),
                );
                assert(head + attr_items::<Message>(self.attributes@.take(i + 1)) =~= (head
                    + attr_items::<Message>(self.attributes@.take(i as int))).push(
                    DomItem::Attr { name: a.name_spec(), value: a.value_spec() },
                ));
            }
            i = i + 1;
        }
        assert(self.attributes@.take(i as int) =~= self.attributes@);
        let ghost p1 = head + attr_items::<Message>(self.attributes@);
        match &self.inner_html {
            Some(h) => {
                let ghost before = out@;
                out.push(DomItem::UnsafeInnerHtml(h.clone()));
                proof {
                    assert(out@.skip(start) =~= before.skip(start).push(out@.last()));
                    assert(out@.take(start) =~= before.take(start));
                }
            },
            None => {},
        }
        let ghost p2 = p1 + inner_items::<Message>(self.inner_html_spec());
        assert(p2 =~= p1 + inner_items::<Message>(self.inner_html_spec()));
        assert(items_cloned(p2, out@.skip(start)));
        let mut j: usize = 0;
        while j < self.events.len()
            invariant
                j <= self.events@.len(),
                out@.len() >= start,
                out@.take(start) == o0,
                start == o0.len(),
                items_cloned(p2 + event_items(self.events@.take(j as int)), out@.skip(start)),
            decreases self.events.len() - j,
        {
            let e = &self.events[j];
            let ghost before = out@;
            let h = clone_handler(&e.handler);
            out.push(DomItem::Event { trigger: e.trigger.clone(), handler: h });
            proof {
                assert(self.events@.take(j + 1) =~= self.events@.take(j as int).push(*e));
                assert(event_items(self.events@.take(j + 1)) =~= event_items(
                    self.events@.take(j as int),
                ).push(
                    DomItem::Event { trigger: e.trigger_spec(), handler: handler_item(e.handler_spec()) },
                ));
                assert(out@.skip(start) =~= before.skip(start).push(out@.last()));
                assert(out@.take(start) =~= before.take(start));
                let x = DomItem::Event { trigger: e.trigger_spec(), handler: handler_item(e.handler_spec()) };
                lemma_items_cloned_push(
                    p2 + event_items(self.events@.take(j as int)),
                    before.skip(start),
                    x,
                    out@.last(),
                );
                assert(p2 + event_items(self.events@.take(j + 1)) =~= (p2 + event_items(
                    self.events@.take(j as int),
                )).push(x));
            }
            j = j + 1;
        }
        assert(self.events@.take(j as int) =~= self.events@);
        let ghost p3 = p2 + event_items(self.events@);
        let mut c: usize = 0;
        while c < self.children.len()
            invariant
                c <= self.children@.len(),
                out@.len() >= start,
                out@.take(start) == o0,
                start == o0.len(),
                items_cloned(p3 + flatten_all(self.children@.take(c as int)), out@.skip(start)),
            decreases self.children.len() - c,
        {
            let ghost before = out@;
            let ghost child = self.children@[c as int];
            assert(decreases_to!(*self => self.children@[c as int]));
            self.children[c].push_items(out);
            proof {
                assert(self.children@.take(c + 1) =~= self.children@.take(c as int).push(child));
                lemma_flatten_all_concat(self.children@.take(c as int), seq![child]);
                lemma_flatten_all_single(child);
                assert(self.children@.take(c as int).push(child) =~= self.children@.take(c as int)
                    + seq![child]);
                let lhs = p3 + flatten_all(self.children@.take(c + 1));
                let prev = p3 + flatten_all(self.children@.take(c as int));
                assert(lhs =~= prev + flatten(child));
                assert(out@.skip(start) =~= before.skip(start) + out@.skip(before.len() as int));
                assert(out@.take(start) =~= before.take(start));
                assert forall|k: int| 0 <= k < lhs.len() implies item_cloned(
                    #[trigger] lhs[k],
                    out@.skip(start)[k],
                ) by {
                    if k < prev.len() {
                        assert(lhs[k] == prev[k]);
                        assert(out@.skip(start)[k] == before.skip(start)[k]);
                    } else {
                        assert(lhs[k] == flatten(child)[k - prev.len()]);
                        assert(out@.skip(start)[k] == out@.skip(before.len() as int)[k - prev.len()]);
                    }
                }
            }
            c = c + 1;
        }
        assert(self.children@.take(c as int) =~= self.children@);
        let ghost before = out@;
        out.push(DomItem::Up);
        proof {
            assert(out@.skip(start) =~= before.skip(start).push(DomItem::Up));
            assert(out@.take(start) =~= before.take(start));
            assert(flatten(*self) =~= p3 + flatten_all(self.children@) + seq![DomItem::<Message>::Up]);
            assert(flatten(*self) =~= (p3 + flatten_all(self.children@)).push(DomItem::<Message>::Up));
        }
    }
}

/// A sequence of DOM entries, without a containing element.
#[derive(Debug)]
pub struct DomVec<Message>(pub Vec<Dom<Message>>);

impl<Message: Clone> DomVec<Message> {
    /// The walks of the trees one after the other: a clone of their walk, which is well formed.
    pub fn dom_iter(&self) -> (r: Vec<DomItem<Message>>)
        ensures
            items_cloned(flatten_all(self.0@), r@),
            well_formed(r@),
            attached(r@),
            no_key_refs(r@),
            keyless(flatten_all(self.0@)) ==> keyless(r@),
    {
        let mut out: Vec<DomItem<Message>> = Vec::new();
        let mut c: usize = 0;
        assert(flatten_all(self.0@.take(0)) =~= Seq::<DomItem<Message>>::empty()) by {
            assert(self.0@.take(0) =~= Seq::<Dom<Message>>::empty());
        }
        while c < self.0.len()
            invariant
                c <= self.0@.len(),
                items_cloned(flatten_all(self.0@.take(c as int)), out@),
            decreases self.0.len() - c,
        {
            let ghost before = out@;
            let ghost child = self.0@[c as int];
            self.0[c].push_items(&mut out);
            proof {
                assert(self.0@.take(c + 1) =~= self.0@.take(c as int) + seq![child]);
                lemma_flatten_all_concat(self.0@.take(c as int), seq![child]);
                lemma_flatten_all_single(child);
                let lhs = flatten_all(self.0@.take(c + 1));
                let prev = flatten_all(self.0@.take(c as int));
                assert(lhs =~= prev + flatten(child));
                assert forall|k: int| 0 <= k < lhs.len() implies item_cloned(#[trigger] lhs[k], out@[k]) by {
                    if k < prev.len() {
                        assert(lhs[k] == prev[k]);
                        assert(out@[k] == out@.take(before.len() as int)[k]);
                    } else {
                        assert(lhs[k] == flatten(child)[k - prev.len()]);
                        assert(out@[k] == out@.skip(before.len() as int)[k - prev.len()]);
                    }
                }
            }
            c = c + 1;
        }
        assert(self.0@.take(c as int) =~= self.0@);
        proof {
            lemma_flatten_all_well_formed(self.0@);
            lemma_flatten_all_attached(self.0@);
            lemma_cloned_shape(flatten_all(self.0@), out@);
        }
        out
    }
}

impl<Message> From<Vec<Dom<Message>>> for DomVec<Message> {
    fn from(v: Vec<Dom<Message>>) -> (r: Self) {
        DomVec(v)
    }
}

impl<Message> vstd::std_specs::convert::FromSpecImpl<Vec<Dom<Message>>> for DomVec<Message> {
    open spec fn obeys_from_spec() -> bool {
        true
    }

    open spec fn from_spec(v: Vec<Dom<Message>>) -> Self {
        DomVec(v)
    }
}

impl From<(&'static str, &str)> for Attr {
    fn from(data: (&'static str, &str)) -> (r: Self)
        ensures
            r.name_spec()@ == data.0@,
            r.value_spec()@ == data.1@,
    {
        let (name, value) = data;
        Attr::new(name, value)
    }
}

impl vstd::std_specs::convert::FromSpecImpl<(&'static str, &str)> for Attr {
    open spec fn obeys_from_spec() -> bool {
        false
    }

    open spec fn from_spec(data: (&'static str, &str)) -> Self {
        vstd::pervasive::arbitrary()
    }
}

impl From<(&'static str, String)> for Attr {
    fn from(data: (&'static str, String)) -> (r: Self)
        ensures
            r.name_spec()@ == data.0@,
            r.value_spec() == data.1,
    {
        let (name, value) = data;
        Attr { name: name.to_owned(), value }
    }
}

impl vstd::std_specs::convert::FromSpecImpl<(&'static str, String)> for Attr {
    open spec fn obeys_from_spec() -> bool {
        false
    }

    open spec fn from_spec(data: (&'static str, String)) -> Self {
        vstd::pervasive::arbitrary()
    }
}

} // verus!
