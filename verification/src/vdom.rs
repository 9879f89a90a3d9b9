//! Flexible generic virtual dom representation.
//!
//! A virtual dom tree is handed to the [`diff`](crate::diff::diff) algorithm as the sequence of
//! [`DomItem`]s seen when walking the tree depth first: a node, then its attributes, inner html
//! and event handlers, then its children, then an [`DomItem::Up`] that closes the node.
//!
//! Callbacks (event handler functions and component constructors) are referred to by plain
//! integer identifiers; the code that talks to the browser keeps the functions those numbers
//! stand for.
use vstd::prelude::*;
use vstd::std_specs::cmp::PartialEqSpec;

verus! {

/// An event handler. The handler either always maps to a specific message, or names a callback
/// (by its identifier) that turns the browser event into a message.
#[derive(Debug, Clone, PartialEq)]
pub enum EventHandler<Message> {
    /// A message that will be generated when the event associated with this handler fires.
    Msg(Message),
    /// A callback that converts a browser event into a message.
    Fn(u64),
    /// A callback that converts a browser event into a message, given the stored message.
    FnMsg(Message, u64),
    /// A callback that receives the value of a form input and converts it to a message.
    InputValue(u64),
    /// A callback that converts a browser input event into a message.
    InputEvent(u64),
}

/// Items representing all of the data in a virtual dom tree, in depth first order.
#[derive(Debug, Clone, PartialEq)]
pub enum DomItem<Message> {
    /// An element in the tree.
    Element {
        /// The element name.
        name: String,
        /// An optional key for this element.
        key: Option<u64>,
    },
    /// A text node in the tree.
    Text(String),
    /// Raw HTML code to be rendered using innerHTML.
    UnsafeInnerHtml(String),
    /// An attribute of the last node we saw.
    Attr {
        /// The attribute name.
        name: String,
        /// The attribute value.
        value: String,
    },
    /// An event handler from the last node we saw.
    Event {
        /// The trigger for this event.
        trigger: String,
        /// The handler for this event.
        handler: EventHandler<Message>,
    },
    /// We are finished processing children nodes, the next node is a sibling.
    Up,
    /// A component.
    Component {
        /// An optional key for this component.
        key: Option<u64>,
        /// A message to send to the component.
        msg: Message,
        /// The identifier of the function that creates the component.
        create: u64,
    },
    /// A reference to a keyed item (used while diffing keyed sub trees).
    Key(u64),
}

/// Two event handlers are the same when they are the same variant with equal messages and
/// callback identifiers.
pub open spec fn handler_eq<M: PartialEq>(a: EventHandler<M>, b: EventHandler<M>) -> bool {
    match (a, b) {
        (EventHandler::Msg(x), EventHandler::Msg(y)) => x.eq_spec(&y),
        (EventHandler::Fn(f), EventHandler::Fn(g)) => f == g,
        (EventHandler::FnMsg(x, f), EventHandler::FnMsg(y, g)) => x.eq_spec(&y) && f == g,
        (EventHandler::InputValue(f), EventHandler::InputValue(g)) => f == g,
        (EventHandler::InputEvent(f), EventHandler::InputEvent(g)) => f == g,
        _ => false,
    }
}

/// Compare two event handlers.
pub fn handlers_equal<M: PartialEq>(a: &EventHandler<M>, b: &EventHandler<M>) -> (r: bool)
    requires
        M::obeys_eq_spec(),
    ensures
        r == handler_eq(*a, *b),
{
    match (a, b) {
        (EventHandler::Msg(x), EventHandler::Msg(y)) => x == y,
        (EventHandler::Fn(f), EventHandler::Fn(g)) => *f == *g,
        (EventHandler::FnMsg(x, f), EventHandler::FnMsg(y, g)) => x == y && *f == *g,
        (EventHandler::InputValue(f), EventHandler::InputValue(g)) => *f == *g,
        (EventHandler::InputEvent(f), EventHandler::InputEvent(g)) => *f == *g,
        _ => false,
    }
}

/// Items that open a node which is closed by a later `Up`.
pub open spec fn opens_node<M>(i: DomItem<M>) -> bool {
    i is Element || i is Text || i is Component
}

/// Items that own an entry in the storage of the rendered dom: nodes, listeners and the end of
/// each node.
pub open spec fn uses_storage<M>(i: DomItem<M>) -> bool {
    i is Element || i is Text || i is Component || i is Event || i is Up
}

/// Elements and components that carry a key.
pub open spec fn is_keyed<M>(i: DomItem<M>) -> bool {
    match i {
        DomItem::Element { key, .. } => key is Some,
        DomItem::Component { key, .. } => key is Some,
        _ => false,
    }
}

/// The number of storage entries the rendered form of `s` owns.
pub open spec fn storage_count<M>(s: Seq<DomItem<M>>) -> nat
    decreases s.len(),
{
    if s.len() == 0 {
        0
    } else {
        (if uses_storage(s[0]) { 1nat } else { 0nat }) + storage_count(s.drop_first())
    }
}

/// The storage of two walks one after the other is the storage of both.
pub proof fn lemma_storage_count_concat<M>(a: Seq<DomItem<M>>, b: Seq<DomItem<M>>)
    ensures
        storage_count(a + b) == storage_count(a) + storage_count(b),
    decreases a.len(),
{
    if a.len() == 0 {
        assert(a + b =~= b);
    } else {
        lemma_storage_count_concat(a.drop_first(), b);
        assert((a + b).drop_first() =~= a.drop_first() + b);
        assert((a + b)[0] == a[0]);
    }
}

/// Appending an item adds its storage.
pub proof fn lemma_storage_count_push<M>(a: Seq<DomItem<M>>, x: DomItem<M>)
    ensures
        storage_count(a.push(x)) == storage_count(a) + if uses_storage(x) { 1nat } else { 0nat },
{
    lemma_storage_count_concat(a, seq![x]);
    assert(a + seq![x] =~= a.push(x));
    assert(seq![x].drop_first() =~= Seq::<DomItem<M>>::empty());
    assert(seq![x][0] == x);
    assert(storage_count(Seq::<DomItem<M>>::empty()) == 0);
}

/// The number of storage entries the rendered form of the walk `items` owns: one per node,
/// listener and node end.
pub fn storage_needed<M>(items: &Vec<DomItem<M>>) -> (r: usize)
    ensures
        r == storage_count(items@),
{
    let mut count: usize = 0;
    let mut i: usize = 0;
    assert(items@.take(0) =~= Seq::<DomItem<M>>::empty());
    while i < items.len()
        invariant
            i <= items@.len(),
            count <= i,
            count == storage_count(items@.take(i as int)),
        decreases items.len() - i,
    {
        proof {
            assert(items@.take(i + 1) =~= items@.take(i as int).push(items@[i as int]));
            lemma_storage_count_push(items@.take(i as int), items@[i as int]);
        }
        if item_uses_storage(&items[i]) {
            count = count + 1;
        }
        i = i + 1;
    }
    assert(items@.take(i as int) =~= items@);
    count
}

/// Decide whether an item carries a key.
pub fn item_is_keyed<M>(i: &DomItem<M>) -> (r: bool)
    ensures
        r == is_keyed(*i),
{
    match i {
        DomItem::Element { key, .. } => key.is_some(),
        DomItem::Component { key, .. } => key.is_some(),
        _ => false,
    }
}

/// Decide whether an item owns a storage entry.
pub fn item_uses_storage<M>(i: &DomItem<M>) -> (r: bool)
    ensures
        r == uses_storage(*i),
{
    match i {
        DomItem::Element { .. } | DomItem::Text(_) | DomItem::Component { .. }
        | DomItem::Event { .. } | DomItem::Up => true,
        _ => false,
    }
}

/// Decide whether an item opens a node.
pub fn item_opens_node<M>(i: &DomItem<M>) -> (r: bool)
    ensures
        r == opens_node(*i),
{
    match i {
        DomItem::Element { .. } | DomItem::Text(_) | DomItem::Component { .. } => true,
        _ => false,
    }
}

/// Decide whether an item closes a node.
pub fn item_is_up<M>(i: &DomItem<M>) -> (r: bool)
    ensures
        r == (*i is Up),
{
    match i {
        DomItem::Up => true,
        _ => false,
    }
}

/// How an item changes the nesting depth of the walk.
pub open spec fn depth_change<M>(i: DomItem<M>) -> int {
    if opens_node(i) {
        1
    } else if i is Up {
        -1
    } else {
        0
    }
}

/// The nesting depth reached after walking `s`.
pub open spec fn nesting<M>(s: Seq<DomItem<M>>) -> int
    decreases s.len(),
{
    if s.len() == 0 {
        0
    } else {
        nesting(s.drop_last()) + depth_change(s.last())
    }
}

/// A sequence that describes a list of complete trees: every `Up` closes a node that was opened
/// before it, and every opened node is closed.
pub open spec fn well_formed<M>(s: Seq<DomItem<M>>) -> bool {
    &&& nesting(s) == 0
    &&& forall|k: int| 0 <= k <= s.len() ==> #[trigger] nesting(s.take(k)) >= 0
}

/// No element or component in `s` carries a key.
pub open spec fn keyless<M>(s: Seq<DomItem<M>>) -> bool {
    forall|k: int| 0 <= k < s.len() ==> !is_keyed(#[trigger] s[k])
}

/// The nesting of two walks one after the other adds up.
pub proof fn lemma_nesting_concat<M>(a: Seq<DomItem<M>>, b: Seq<DomItem<M>>)
    ensures
        nesting(a + b) == nesting(a) + nesting(b),
    decreases b.len(),
{
    if b.len() == 0 {
        assert(a + b =~= a);
    } else {
        lemma_nesting_concat(a, b.drop_last());
        assert((a + b).drop_last() =~= a + b.drop_last());
        assert((a + b).last() == b.last());
    }
}

/// The nesting of a single item is its depth change.
pub proof fn lemma_nesting_single<M>(x: DomItem<M>)
    ensures
        nesting(seq![x]) == depth_change(x),
{
    assert(seq![x].drop_last() =~= Seq::<DomItem<M>>::empty());
    assert(seq![x].last() == x);
    assert(nesting(Seq::<DomItem<M>>::empty()) == 0);
}

/// Two well formed walks one after the other are well formed.
pub proof fn lemma_well_formed_concat<M>(a: Seq<DomItem<M>>, b: Seq<DomItem<M>>)
    requires
        well_formed(a),
        well_formed(b),
    ensures
        well_formed(a + b),
{
    lemma_nesting_concat(a, b);
    assert forall|k: int| 0 <= k <= (a + b).len() implies #[trigger] nesting((a + b).take(k)) >= 0 by {
        if k <= a.len() {
            assert((a + b).take(k) =~= a.take(k));
        } else {
            assert((a + b).take(k) =~= a + b.take(k - a.len()));
            lemma_nesting_concat(a, b.take(k - a.len()));
        }
    }
}

/// A walk of items that neither open nor close nodes is well formed, at every prefix.
pub proof fn lemma_flat_well_formed<M>(z: Seq<DomItem<M>>)
    requires
        forall|k: int| 0 <= k < z.len() ==> depth_change(#[trigger] z[k]) == 0,
    ensures
        well_formed(z),
        forall|k: int| 0 <= k <= z.len() ==> #[trigger] nesting(z.take(k)) == 0,
    decreases z.len(),
{
    if z.len() > 0 {
        lemma_flat_well_formed(z.drop_last());
        assert forall|k: int| 0 <= k <= z.len() implies #[trigger] nesting(z.take(k)) == 0 by {
            if k < z.len() {
                assert(z.take(k) =~= z.drop_last().take(k));
            } else {
                assert(z.take(k) =~= z);
                assert(z.drop_last().take(z.len() - 1) =~= z.drop_last());
            }
        }
        assert(z.take(z.len() as int) =~= z);
    } else {
        assert forall|k: int| 0 <= k <= z.len() implies #[trigger] nesting(z.take(k)) == 0 by {
            assert(z.take(k) =~= z);
        }
    }
}

/// A node that opens, a well formed body, and the `Up` that closes the node form a well formed
/// walk.
pub proof fn lemma_well_formed_wrap<M>(x: DomItem<M>, body: Seq<DomItem<M>>)
    requires
        opens_node(x),
        well_formed(body),
    ensures
        well_formed(seq![x] + body + seq![DomItem::<M>::Up]),
{
    let w = seq![x] + body + seq![DomItem::<M>::Up];
    lemma_nesting_single(x);
    lemma_nesting_single(DomItem::<M>::Up);
    lemma_nesting_concat(seq![x], body);
    lemma_nesting_concat(seq![x] + body, seq![DomItem::<M>::Up]);
    assert forall|k: int| 0 <= k <= w.len() implies #[trigger] nesting(w.take(k)) >= 0 by {
        if k == 0 {
            assert(w.take(k) =~= Seq::<DomItem<M>>::empty());
        } else if k <= body.len() + 1 {
            assert(w.take(k) =~= seq![x] + body.take(k - 1));
            lemma_nesting_concat(seq![x], body.take(k - 1));
        } else {
            assert(w.take(k) =~= w);
        }
    }
}

/// Every attribute, inner html and event handler of the walk `s` stands inside an open node.
pub open spec fn attached<M>(s: Seq<DomItem<M>>) -> bool {
    forall|k: int|
        #![trigger s[k]]
        0 <= k < s.len() && (s[k] is Attr || s[k] is Event || s[k] is UnsafeInnerHtml) ==> nesting(
            s.take(k),
        ) > 0
}

/// The walk `s` holds no reference to a keyed sub tree.
pub open spec fn no_key_refs<M>(s: Seq<DomItem<M>>) -> bool {
    forall|k: int| 0 <= k < s.len() ==> !(#[trigger] s[k] is Key)
}

/// Two walks one after the other, the first not closing more nodes than it opens, keep their
/// attributes, inner html and event handlers inside open nodes.
pub proof fn lemma_attached_concat<M>(a: Seq<DomItem<M>>, b: Seq<DomItem<M>>)
    requires
        attached(a),
        attached(b),
        nesting(a) >= 0,
    ensures
        attached(a + b),
{
    assert forall|k: int|
        #![trigger (a + b)[k]]
        0 <= k < (a + b).len() && ((a + b)[k] is Attr || (a + b)[k] is Event || (a
            + b)[k] is UnsafeInnerHtml) implies nesting((a + b).take(k)) > 0 by {
        if k < a.len() {
            assert((a + b).take(k) =~= a.take(k));
            assert((a + b)[k] == a[k]);
        } else {
            assert((a + b).take(k) =~= a + b.take(k - a.len()));
            assert((a + b)[k] == b[k - a.len()]);
            lemma_nesting_concat(a, b.take(k - a.len()));
        }
    }
}

/// Two walks without references to keyed sub trees, one after the other, have none either.
pub proof fn lemma_no_key_refs_concat<M>(a: Seq<DomItem<M>>, b: Seq<DomItem<M>>)
    requires
        no_key_refs(a),
        no_key_refs(b),
    ensures
        no_key_refs(a + b),
{
    assert forall|k: int| 0 <= k < (a + b).len() implies !(#[trigger] (a + b)[k] is Key) by {
        if k < a.len() {
            assert((a + b)[k] == a[k]);
        } else {
            assert((a + b)[k] == b[k - a.len()]);
        }
    }
}

/// Everything between a node that opens and the `Up` that closes it stands inside an open
/// node, when the walk between them closes no node it did not open.
pub proof fn lemma_attached_wrap<M>(x: DomItem<M>, body: Seq<DomItem<M>>)
    requires
        opens_node(x),
        well_formed(body),
    ensures
        attached(seq![x] + body + seq![DomItem::<M>::Up]),
{
    let w = seq![x] + body + seq![DomItem::<M>::Up];
    lemma_nesting_single(x);
    assert forall|k: int|
        #![trigger w[k]]
        0 <= k < w.len() && (w[k] is Attr || w[k] is Event || w[k] is UnsafeInnerHtml) implies nesting(
        w.take(k),
    ) > 0 by {
        if k == 0 {
            assert(w[0] == x);
        } else if k <= body.len() {
            assert(w.take(k) =~= seq![x] + body.take(k - 1));
            lemma_nesting_concat(seq![x], body.take(k - 1));
        } else {
            assert(w[k] == DomItem::<M>::Up);
        }
    }
}

} // verus!
