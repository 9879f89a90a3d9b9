//! Dom patching descriptions.
//!
//! This module implements the [`Patch`] and [`PatchSet`] types which describe a set of changes
//! to a dom tree. A patch refers to an entry of the storage kept for the previously rendered dom
//! by a storage handle of type `S`, which it takes over.
use std::collections::HashMap;
use vstd::prelude::*;
use crate::vdom::EventHandler;
use vstd::std_specs::iter::IteratorSpec;

verus! {

broadcast use vstd::std_specs::hash::group_hash_axioms;

/// The operations needed to move the dom to the desired state.
#[derive(Debug, PartialEq)]
pub enum Patch<Message, S> {
    /// Remove an element.
    RemoveElement(S),
    /// Create an element of the given type.
    CreateElement {
        /// The name/type of element that will be created.
        element: String,
    },
    /// Reference a keyed sub tree.
    ReferenceKey(u64),
    /// Copy an element from the old dom tree to the new dom tree.
    CopyElement(S),
    /// Move the given element from its old position in the dom to a new position.
    MoveElement(S),
    /// Remove a text node.
    RemoveText(S),
    /// Replace the value of a text node.
    ReplaceText {
        /// The existing text node.
        take: S,
        /// The replacement text for the existing text node.
        text: String,
    },
    /// Create a text node.
    CreateText {
        /// The text value of the node to create.
        text: String,
    },
    /// Copy the text node to the new dom.
    CopyText(S),
    /// Update this element by setting innerHTML.
    SetInnerHtml(String),
    /// Remove all of the children of the parent of this element.
    UnsetInnerHtml,
    /// Create a component.
    CreateComponent {
        /// The initial message to send to the component.
        msg: Message,
        /// The identifier of the function used to create the component.
        create: u64,
    },
    /// Copy a component from the old dom to the new one.
    CopyComponent(S),
    /// Move a component from the old dom to the new one.
    MoveComponent(S),
    /// Send a message to a component.
    UpdateComponent {
        /// The existing component.
        take: S,
        /// The message to send.
        msg: Message,
    },
    /// Move a component and send a message to it.
    MupdateComponent {
        /// The existing component.
        take: S,
        /// The message to send.
        msg: Message,
    },
    /// Remove a component.
    RemoveComponent(S),
    /// Set an attribute.
    SetAttribute {
        /// The name of the attribute to set.
        name: String,
        /// The value of the attribute to set.
        value: String,
    },
    /// Remove an attribute.
    RemoveAttribute(String),
    /// Add an event listener.
    AddListener {
        /// The trigger for the event to watch.
        trigger: String,
        /// A handler for the event.
        handler: EventHandler<Message>,
    },
    /// Copy an event listener from the old dom tree to the new dom tree.
    CopyListener(S),
    /// Remove an event listener.
    RemoveListener {
        /// The trigger for the event to remove.
        trigger: String,
        /// The existing listener.
        take: S,
    },
    /// This marks the end of operations on the last node.
    Up,
}

/// Patches that only carry what already exists over to the new virtual dom; applying them
/// leaves the browser's dom as it is.
pub open spec fn is_noop_patch<M, S>(p: Patch<M, S>) -> bool {
    match p {
        Patch::CopyElement(_) | Patch::CopyListener(_) | Patch::ReferenceKey(_)
        | Patch::CopyText(_) | Patch::CopyComponent(_) | Patch::Up => true,
        _ => false,
    }
}

/// Every patch of `s` is a no-op.
pub open spec fn all_noop<M, S>(s: Seq<Patch<M, S>>) -> bool {
    forall|i: int| 0 <= i < s.len() ==> is_noop_patch(#[trigger] s[i])
}

/// Patches that store an entry in the new storage when they are applied: one for each node,
/// listener and node end of the new dom.
pub open spec fn patch_stores<M, S>(p: Patch<M, S>) -> bool {
    match p {
        Patch::CreateElement { .. } | Patch::CopyElement(_) | Patch::MoveElement(_)
        | Patch::ReplaceText { .. } | Patch::CreateText { .. } | Patch::CopyText(_)
        | Patch::CreateComponent { .. } | Patch::CopyComponent(_) | Patch::MoveComponent(_)
        | Patch::UpdateComponent { .. } | Patch::MupdateComponent { .. }
        | Patch::AddListener { .. } | Patch::CopyListener(_) | Patch::Up => true,
        _ => false,
    }
}

/// The number of patches of `ps` that store an entry.
pub open spec fn patch_store_count<M, S>(ps: Seq<Patch<M, S>>) -> nat
    decreases ps.len(),
{
    if ps.len() == 0 {
        0
    } else {
        (if patch_stores(ps[0]) {
            1nat
        } else {
            0nat
        }) + patch_store_count(ps.drop_first())
    }
}

/// The stores of two patch lists one after the other add up.
pub proof fn lemma_patch_store_count_concat<M, S>(a: Seq<Patch<M, S>>, b: Seq<Patch<M, S>>)
    ensures
        patch_store_count(a + b) == patch_store_count(a) + patch_store_count(b),
    decreases a.len(),
{
    if a.len() == 0 {
        assert(a + b =~= b);
    } else {
        lemma_patch_store_count_concat(a.drop_first(), b);
        assert((a + b).drop_first() =~= a.drop_first() + b);
        assert((a + b)[0] == a[0]);
    }
}

/// Patches that work on the innermost open node: they need a node to be open.
pub open spec fn works_on_node<M, S>(p: Patch<M, S>) -> bool {
    p is RemoveText || p is SetInnerHtml || p is UnsetInnerHtml || p is SetAttribute
        || p is RemoveAttribute || p is AddListener || p is RemoveListener
}

/// The patch list refers to no keyed patch list.
pub open spec fn no_key_patches<M, S>(ps: Seq<Patch<M, S>>) -> bool {
    forall|i: int| 0 <= i < ps.len() ==> !(#[trigger] ps[i] is ReferenceKey)
}

/// Patches that open a node: the node they create or keep is the innermost open node after
/// them, until the `Up` that closes it.
pub open spec fn patch_opens<M, S>(p: Patch<M, S>) -> bool {
    match p {
        Patch::CreateElement { .. } | Patch::CopyElement(_) | Patch::MoveElement(_)
        | Patch::ReplaceText { .. } | Patch::CreateText { .. } | Patch::CopyText(_)
        | Patch::CreateComponent { .. } | Patch::CopyComponent(_) | Patch::MoveComponent(_)
        | Patch::UpdateComponent { .. } | Patch::MupdateComponent { .. } => true,
        _ => false,
    }
}

/// How a patch changes the number of open nodes.
pub open spec fn patch_depth_change<M, S>(p: Patch<M, S>) -> int {
    if patch_opens(p) {
        1
    } else if p is Up {
        -1
    } else {
        0
    }
}

/// The number of nodes left open after the patches `ps`.
pub open spec fn patch_nesting<M, S>(ps: Seq<Patch<M, S>>) -> int
    decreases ps.len(),
{
    if ps.len() == 0 {
        0
    } else {
        patch_nesting(ps.drop_last()) + patch_depth_change(ps.last())
    }
}

/// Every patch that works on the innermost open node, and every `Up`, comes while a node is
/// open.
pub open spec fn opens_before_use<M, S>(ps: Seq<Patch<M, S>>) -> bool {
    forall|k: int|
        #![trigger ps[k]]
        0 <= k < ps.len() && (works_on_node(ps[k]) || ps[k] is Up) ==> patch_nesting(ps.take(k)) > 0
}

/// Every patch that works on the innermost open node, and every `Up`, comes while a node is
/// open, and no patch refers to a keyed list.
pub open spec fn patches_open_ok<M, S>(ps: Seq<Patch<M, S>>) -> bool {
    &&& no_key_patches(ps)
    &&& opens_before_use(ps)
}

/// Every patch that needs an open node comes while one is open, and, unless `refs` allows
/// them, no patch refers to a keyed list.
pub open spec fn patches_open_ok_if<M, S>(ps: Seq<Patch<M, S>>, refs: bool) -> bool {
    &&& refs || no_key_patches(ps)
    &&& opens_before_use(ps)
}

/// A patch list that opens and closes nodes in balance: applying it on its own never lacks an
/// open node, and leaves none open.
pub open spec fn patches_balanced<M, S>(ps: Seq<Patch<M, S>>) -> bool {
    &&& patches_open_ok(ps)
    &&& patch_nesting(ps) == 0
}

/// The storage handle a patch takes over from the old dom, if any.
pub open spec fn patch_handle<M, S>(p: Patch<M, S>) -> Seq<S> {
    match p {
        Patch::RemoveElement(s) | Patch::CopyElement(s) | Patch::MoveElement(s)
        | Patch::RemoveText(s) | Patch::CopyText(s) | Patch::CopyComponent(s)
        | Patch::MoveComponent(s) | Patch::RemoveComponent(s) | Patch::CopyListener(s) => seq![s],
        Patch::ReplaceText { take, .. } | Patch::UpdateComponent { take, .. }
        | Patch::MupdateComponent { take, .. } | Patch::RemoveListener { take, .. } => seq![take],
        _ => seq![],
    }
}

/// The storage handles the patches take over, in order.
pub open spec fn patch_handles<M, S>(ps: Seq<Patch<M, S>>) -> Seq<S>
    decreases ps.len(),
{
    if ps.len() == 0 {
        seq![]
    } else {
        patch_handles(ps.drop_last()) + patch_handle(ps.last())
    }
}

/// Decide whether a single patch is a no-op.
pub fn patch_is_noop<M, S>(p: &Patch<M, S>) -> (r: bool)
    ensures
        r == is_noop_patch(*p),
{
    match p {
        Patch::CopyElement(_) | Patch::CopyListener(_) | Patch::ReferenceKey(_)
        | Patch::CopyText(_) | Patch::CopyComponent(_) | Patch::Up => true,
        _ => false,
    }
}

/// Decide whether every patch of a list is a no-op.
pub fn patches_are_noop<M, S>(v: &Vec<Patch<M, S>>) -> (r: bool)
    ensures
        r == all_noop(v@),
{
    let mut i: usize = 0;
    while i < v.len()
        invariant
            i <= v.len(),
            all_noop(v@.take(i as int)),
        decreases v.len() - i,
    {
        if !patch_is_noop(&v[i]) {
            return false;
        }
        assert(v@.take(i + 1) =~= v@.take(i as int).push(v@[i as int]));
        i = i + 1;
    }
    assert(v@.take(i as int) =~= v@);
    true
}

/// Insert every entry of `other` into `m`, replacing existing entries with the same key.
///
/// Calls `HashMap::extend` of std, which, as std documents it, inserts each key-value pair of the
/// iterator and updates the value of a key already present; this contract claims exactly that.
#[verifier::external_body]
fn hash_map_extend<V>(m: &mut HashMap<u64, V>, other: HashMap<u64, V>)
    ensures
        final(m)@ == old(m)@.union_prefer_right(other@),
{
    m.extend(other);
}

/// A series of [`Patch`]es to apply to the dom, along with the patches for keyed sub trees.
#[derive(Debug)]
pub struct PatchSet<Message, S> {
    /// The patches in this patch set.
    pub patches: Vec<Patch<Message, S>>,
    /// Mini patch sets for keyed nodes.
    pub keyed: HashMap<u64, Vec<Patch<Message, S>>>,
}

/// The patch lists of a keyed map, as sequences.
pub open spec fn keyed_view<M, S>(m: Map<u64, Vec<Patch<M, S>>>) -> Map<u64, Seq<Patch<M, S>>> {
    m.map_values(|v: Vec<Patch<M, S>>| v@)
}

impl<Message, S> PatchSet<Message, S> {
    /// The keyed patch lists as sequences.
    pub open spec fn keyed_seqs(&self) -> Map<u64, Seq<Patch<Message, S>>> {
        keyed_view(self.keyed@)
    }

    /// Applying this patch set leaves the browser's dom as it is.
    pub open spec fn noop(&self) -> bool {
        &&& all_noop(self.patches@)
        &&& forall|k: u64| #[trigger] self.keyed@.contains_key(k) ==> all_noop(self.keyed@[k]@)
    }

    /// Create an empty PatchSet.
    pub fn new() -> (r: Self)
        ensures
            r.patches@ == Seq::<Patch<Message, S>>::empty(),
            r.keyed@ == Map::<u64, Vec<Patch<Message, S>>>::empty(),
    {
        PatchSet { patches: Vec::new(), keyed: HashMap::new() }
    }

    /// Push a patch on to the end of the PatchSet.
    pub fn push(&mut self, patch: Patch<Message, S>)
        ensures
            final(self).patches@ == old(self).patches@.push(patch),
            final(self).keyed@ == old(self).keyed@,
    {
        self.patches.push(patch)
    }

    /// Move the top level patch list into a keyed entry.
    pub fn root_key(&mut self, key: u64)
        ensures
            final(self).patches@ == Seq::<Patch<Message, S>>::empty(),
            final(self).keyed@ == old(self).keyed@.insert(key, old(self).patches),
    {
        let mut patches = Vec::new();
        std::mem::swap(&mut self.patches, &mut patches);
        self.keyed.insert(key, patches);
    }

    /// Put the patches from the given patch set into this PatchSet. Keyed entries of `other`
    /// replace entries of this set with the same key.
    pub fn extend(&mut self, other: Self)
        ensures
            final(self).patches@ == old(self).patches@ + other.patches@,
            final(self).keyed@ == old(self).keyed@.union_prefer_right(other.keyed@),
    {
        let PatchSet { patches, keyed } = other;
        let mut patches = patches;
        self.patches.append(&mut patches);

        hash_map_extend(&mut self.keyed, keyed);
    }

    /// The top level patches, in order; the keyed patch lists are dropped.
    pub fn into_patches(self) -> (r: Vec<Patch<Message, S>>)
        ensures
            r@ == self.patches@,
    {
        self.patches
    }

    /// Return the length of the PatchSet.
    pub fn len(&self) -> (r: usize)
        ensures
            r == self.patches@.len(),
    {
        self.patches.len()
    }

    /// Return true if applying this PatchSet won't actually alter the browser's dom
    /// representation and false otherwise.
    pub fn is_noop(&self) -> (r: bool)
        ensures
            r == self.noop(),
    {
        if !patches_are_noop(&self.patches) {
            return false;
        }
        let ghost m = self.keyed@;
        let ghost s = vstd::std_specs::hash::spec_values_iter(&self.keyed).remaining();
        proof {
            vstd::std_specs::hash::axiom_spec_values_iter(&self.keyed);
            assert(s.unref().to_set() == m.values());
        }
        for v in it: self.keyed.values()
            invariant
                it.seq() == s,
                s.unref().to_set() == m.values(),
                forall|j: int| 0 <= j < it.index() ==> all_noop(#[trigger] s[j]@),
        {
            assert(*v == *s[it.index()]);
            if !patches_are_noop(v) {
                proof {
                    let j = it.index();
                    assert(*s[j] == *v);
                    assert(s.unref()[j] == *v);
                    assert(s.unref().to_set().contains(*v));
                    assert(m.values().contains(*v));
                    let k = choose|k: u64| #[trigger] m.contains_key(k) && m[k] == *v;
                }
                return false;
            }
        }
        proof {
            assert forall|k: u64| #[trigger] m.contains_key(k) implies all_noop(m[k]@) by {
                assert(m.values().contains(m[k]));
                assert(s.unref().to_set().contains(m[k]));
                let j = choose|j: int| 0 <= j < s.len() && *s[j] == m[k];
            }
        }
        true
    }
}

impl<Message, S> From<Vec<Patch<Message, S>>> for PatchSet<Message, S> {
    fn from(v: Vec<Patch<Message, S>>) -> (r: Self)
        ensures
            r.patches@ == v@,
            r.keyed@ == Map::<u64, Vec<Patch<Message, S>>>::empty(),
    {
        PatchSet { patches: v, keyed: HashMap::new() }
    }
}

impl<Message, S> vstd::std_specs::convert::FromSpecImpl<Vec<Patch<Message, S>>> for PatchSet<Message, S> {
    open spec fn obeys_from_spec() -> bool {
        false
    }

    open spec fn from_spec(v: Vec<Patch<Message, S>>) -> Self {
        vstd::pervasive::arbitrary()
    }
}

/// Extending a patch set with another one: the result changes nothing exactly when the second
/// set changes nothing and neither do the top level patches and the keyed lists of the first
/// set that the second does not replace.
pub proof fn law_extend_noop<M, S>(a: PatchSet<M, S>, b: PatchSet<M, S>, c: PatchSet<M, S>)
    requires
        c.patches@ == a.patches@ + b.patches@,
        c.keyed@ == a.keyed@.union_prefer_right(b.keyed@),
    ensures
        c.noop() <==> ({
            &&& b.noop()
            &&& all_noop(a.patches@)
            &&& forall|k: u64| #[trigger] a.keyed@.contains_key(k) && !b.keyed@.contains_key(k)
                ==> all_noop(a.keyed@[k]@)
        }),
        a.noop() && b.noop() ==> c.noop(),
{
    let pa = a.patches@;
    let pb = b.patches@;
    assert(all_noop(pa + pb) <==> all_noop(pa) && all_noop(pb)) by {
        if all_noop(pa + pb) {
            assert forall|i: int| 0 <= i < pa.len() implies is_noop_patch(#[trigger] pa[i]) by {
                assert((pa + pb)[i] == pa[i]);
            }
            assert forall|i: int| 0 <= i < pb.len() implies is_noop_patch(#[trigger] pb[i]) by {
                assert((pa + pb)[pa.len() + i] == pb[i]);
            }
        }
        if all_noop(pa) && all_noop(pb) {
            assert forall|i: int| 0 <= i < (pa + pb).len() implies is_noop_patch(
                #[trigger] (pa + pb)[i],
            ) by {
                if i < pa.len() {
                    assert((pa + pb)[i] == pa[i]);
                } else {
                    assert((pa + pb)[i] == pb[i - pa.len()]);
                }
            }
        }
    }
    if c.noop() {
        assert forall|k: u64| #[trigger] b.keyed@.contains_key(k) implies all_noop(b.keyed@[k]@) by {
            assert(c.keyed@.contains_key(k));
        }
        assert forall|k: u64| #[trigger] a.keyed@.contains_key(k) && !b.keyed@.contains_key(k)
            implies all_noop(a.keyed@[k]@) by {
            assert(c.keyed@.contains_key(k));
        }
    }
    if b.noop() && all_noop(pa) && forall|k: u64| #[trigger] a.keyed@.contains_key(k)
        && !b.keyed@.contains_key(k) ==> all_noop(a.keyed@[k]@) {
        assert forall|k: u64| #[trigger] c.keyed@.contains_key(k) implies all_noop(c.keyed@[k]@) by {
            if b.keyed@.contains_key(k) {
                assert(c.keyed@[k] == b.keyed@[k]);
            } else {
                assert(a.keyed@.contains_key(k));
            }
        }
    }
}

} // verus!

