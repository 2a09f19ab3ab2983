//! The arena store: a pool of cache entries behind stable integer handles.
//!
//! The slab hands out the handles and keeps each entry's link fields and
//! flags; the key and the value of a handle sit in a table of the same
//! extent, indexed by the handle. A handle stays valid until it is removed.

use vstd::prelude::*;

verus! {

/// The largest number of slots an arena is made with: the slab's table of
/// that many nodes still fits the address space.
pub const MAX_CAPACITY: usize = usize::MAX / 128;

/// The link fields and flags of one entry.
#[derive(Clone, Copy)]
pub struct Node {
    /// The entry before this one in the history list that owns it.
    pub prev: Option<usize>,
    /// The entry after this one in the history list that owns it.
    pub next: Option<usize>,
    /// Set while the entry is a ghost.
    pub is_history: bool,
    /// The clock bit: set by a touch, cleared by the replacement sweep.
    pub is_reference: bool,
    /// The frequency bit.
    pub is_longterm: bool,
}

/// The key and the value of one entry.
pub struct Item<K, V> {
    pub key: K,
    pub value: V,
}

/// One entry as the contracts see it.
pub struct Entry<K, V> {
    pub key: K,
    pub value: V,
    pub node: Node,
}

#[verifier::external_type_specification]
#[verifier::external_body]
#[verifier::reject_recursive_types(T)]
#[verifier::reject_recursive_types(I)]
pub struct ExSlab<T, I>(slab::Slab<T, I>);

/// The nodes that a slab holds, by handle.
pub uninterp spec fn slab_nodes(s: slab::Slab<Node, usize>) -> Map<usize, Node>;

/// The number of slots that a slab was made with.
pub uninterp spec fn slab_limit(s: slab::Slab<Node, usize>) -> nat;

/// `Slab::with_capacity`: an empty slab with `capacity` slots. The bound
/// keeps `capacity + 1`, which the slab computes, and the slot table's size
/// in range.
#[verifier::external_body]
fn slab_with_capacity(capacity: usize) -> (s: slab::Slab<Node, usize>)
    requires
        capacity <= MAX_CAPACITY,
    ensures
        slab_nodes(s).dom() == Set::<usize>::empty(),
        slab_limit(s) == capacity,
{
    slab::Slab::with_capacity(capacity)
}

/// `Slab::insert`: stores the node in a vacant slot and returns that slot's
/// index, which is below the number of slots; fails, changing nothing, exactly
/// when every slot is filled.
#[verifier::external_body]
fn slab_insert(s: &mut slab::Slab<Node, usize>, node: Node) -> (r: Option<usize>)
    requires
        slab_nodes(*old(s)).dom().finite(),
    ensures
        slab_limit(*final(s)) == slab_limit(*old(s)),
        r is Some <==> slab_nodes(*old(s)).dom().len() < slab_limit(*old(s)),
        match r {
            Some(t) => {
                &&& !slab_nodes(*old(s)).contains_key(t)
                &&& t < slab_limit(*old(s))
                &&& slab_nodes(*final(s)) == slab_nodes(*old(s)).insert(t, node)
            },
            None => slab_nodes(*final(s)) == slab_nodes(*old(s)),
        },
{
    s.insert(node).ok()
}

/// `Slab::remove`: empties the slot of a handle and returns what it held.
#[verifier::external_body]
fn slab_remove(s: &mut slab::Slab<Node, usize>, token: usize) -> (r: Option<Node>)
    ensures
        slab_limit(*final(s)) == slab_limit(*old(s)),
        slab_nodes(*final(s)) == slab_nodes(*old(s)).remove(token),
        r == if slab_nodes(*old(s)).contains_key(token) {
            Some(slab_nodes(*old(s))[token])
        } else {
            None
        },
{
    s.remove(token)
}

/// `Slab::index`: the node of a handle in use. The slab panics on any other.
#[verifier::external_body]
fn slab_get(s: &slab::Slab<Node, usize>, token: usize) -> (node: Node)
    requires
        slab_nodes(*s).contains_key(token),
    ensures
        node == slab_nodes(*s)[token],
{
    s[token]
}

/// `Slab::index_mut`, assigned through: replaces the node of a handle in
/// use. The slab panics on any other.
#[verifier::external_body]
fn slab_set(s: &mut slab::Slab<Node, usize>, token: usize, node: Node)
    requires
        slab_nodes(*old(s)).contains_key(token),
    ensures
        slab_limit(*final(s)) == slab_limit(*old(s)),
        slab_nodes(*final(s)) == slab_nodes(*old(s)).insert(token, node),
{
    s[token] = node;
}

/// `Slab::clear`: empties every slot and keeps their number.
#[verifier::external_body]
fn slab_clear(s: &mut slab::Slab<Node, usize>)
    ensures
        slab_limit(*final(s)) == slab_limit(*old(s)),
        slab_nodes(*final(s)).dom() == Set::<usize>::empty(),
{
    s.clear()
}

/// The arena store.
pub struct Arena<K, V> {
    slab: slab::Slab<Node, usize>,
    slots: Vec<Option<Item<K, V>>>,
}

impl<K, V> Arena<K, V> {
    /// The live entries, by handle.
    pub closed spec fn view(&self) -> Map<usize, Entry<K, V>> {
        Map::new(
            |t: usize| slab_nodes(self.slab).contains_key(t),
            |t: usize|
                Entry {
                    key: self.slots@[t as int]->0.key,
                    value: self.slots@[t as int]->0.value,
                    node: slab_nodes(self.slab)[t],
                },
        )
    }

    /// The number of slots.
    pub closed spec fn limit(&self) -> nat {
        slab_limit(self.slab)
    }

    /// The number of live entries.
    pub open spec fn len(&self) -> nat {
        self@.dom().len()
    }

    pub closed spec fn wf(&self) -> bool {
        &&& slab_nodes(self.slab).dom().finite()
        &&& slab_nodes(self.slab).dom().len() <= slab_limit(self.slab)
        &&& self.slots@.len() == slab_limit(self.slab)
        &&& forall|t: usize| #[trigger]
            slab_nodes(self.slab).contains_key(t) ==> t < self.slots@.len()
                && self.slots@[t as int] is Some
    }

    /// A well-formed arena holds finitely many entries, at most one per
    /// slot, each under a handle below the number of slots.
    pub proof fn lemma_bounds(&self)
        requires
            self.wf(),
        ensures
            self@.dom().finite(),
            self.len() <= self.limit() <= usize::MAX,
            forall|t: usize| #[trigger] self@.contains_key(t) ==> t < self.limit(),
    {
        assert(self@.dom() =~= slab_nodes(self.slab).dom());
        assert(self.slots.len() == self.slots@.len());
    }

    /// An empty arena with `capacity` slots.
    pub fn with_capacity(capacity: usize) -> (arena: Self)
        requires
            capacity <= MAX_CAPACITY,
        ensures
            arena.wf(),
            arena@ == Map::<usize, Entry<K, V>>::empty(),
            arena.limit() == capacity,
    {
        let slab = slab_with_capacity(capacity);
        let mut slots: Vec<Option<Item<K, V>>> = Vec::with_capacity(capacity);
        let mut i: usize = 0;
        while i < capacity
            invariant
                i <= capacity,
                slots@.len() == i,
            decreases capacity - i,
        {
            slots.push(None);
            i += 1;
        }
        let arena = Arena { slab, slots };
        assert(arena@ =~= Map::<usize, Entry<K, V>>::empty());
        arena
    }

    /// Stores a new entry and returns its handle. Fails, dropping the entry,
    /// exactly when every slot is taken.
    pub fn insert(&mut self, key: K, value: V, node: Node) -> (r: Option<usize>)
        requires
            old(self).wf(),
        ensures
            final(self).wf(),
            final(self).limit() == old(self).limit(),
            r is Some <==> old(self).len() < old(self).limit(),
            match r {
                Some(t) => {
                    &&& !old(self)@.contains_key(t)
                    &&& final(self)@ == old(self)@.insert(t, Entry { key, value, node })
                    &&& final(self).len() == old(self).len() + 1
                },
                None => final(self)@ == old(self)@,
            },
    {
        proof {
            self.lemma_bounds();
            assert(self@.dom() =~= slab_nodes(self.slab).dom());
        }
        match slab_insert(&mut self.slab, node) {
            Some(t) => {
                self.slots.set(t, Some(Item { key, value }));
                proof {
                    assert(final(self)@ =~= old(self)@.insert(t, Entry { key, value, node }));
                    assert(final(self)@.dom() =~= slab_nodes(final(self).slab).dom());
                }
                Some(t)
            },
            None => {
                proof {
                    assert(final(self)@ =~= old(self)@);
                }
                None
            },
        }
    }

    /// Removes a live entry and returns its key and value. The handle is
    /// invalid from then on.
    pub fn remove(&mut self, token: usize) -> (item: Item<K, V>)
        requires
            old(self).wf(),
            old(self)@.contains_key(token),
        ensures
            final(self).wf(),
            final(self).limit() == old(self).limit(),
            final(self)@ == old(self)@.remove(token),
            final(self).len() == old(self).len() - 1,
            item.key == old(self)@[token].key,
            item.value == old(self)@[token].value,
    {
        proof {
            assert(self@.dom() =~= slab_nodes(self.slab).dom());
        }
        let _ = slab_remove(&mut self.slab, token);
        let mut taken: Option<Item<K, V>> = None;
        self.slots.set_and_swap(token, &mut taken);
        proof {
            assert(final(self)@ =~= old(self)@.remove(token));
            assert(final(self)@.dom() =~= slab_nodes(final(self).slab).dom());
        }
        taken.unwrap()
    }

    /// The link fields and flags of a live entry.
    pub fn node(&self, token: usize) -> (node: Node)
        requires
            self.wf(),
            self@.contains_key(token),
        ensures
            node == self@[token].node,
    {
        slab_get(&self.slab, token)
    }

    /// Replaces the link fields and flags of a live entry.
    pub fn set_node(&mut self, token: usize, node: Node)
        requires
            old(self).wf(),
            old(self)@.contains_key(token),
        ensures
            final(self).wf(),
            final(self).limit() == old(self).limit(),
            final(self)@ == old(self)@.insert(
                token,
                Entry { key: old(self)@[token].key, value: old(self)@[token].value, node },
            ),
    {
        slab_set(&mut self.slab, token, node);
        proof {
            assert(slab_nodes(final(self).slab).dom() =~= slab_nodes(old(self).slab).dom());
            assert(final(self)@ =~= old(self)@.insert(
                token,
                Entry { key: old(self)@[token].key, value: old(self)@[token].value, node },
            ));
        }
    }

    /// The key of a live entry.
    pub fn key(&self, token: usize) -> (key: &K)
        requires
            self.wf(),
            self@.contains_key(token),
        ensures
            *key == self@[token].key,
    {
        match &self.slots[token] {
            Some(item) => &item.key,
            None => vstd::pervasive::unreached(),
        }
    }

    /// The value of a live entry.
    pub fn value(&self, token: usize) -> (value: &V)
        requires
            self.wf(),
            self@.contains_key(token),
        ensures
            *value == self@[token].value,
    {
        match &self.slots[token] {
            Some(item) => &item.value,
            None => vstd::pervasive::unreached(),
        }
    }

    /// The value of a live entry, to be changed in place.
    pub fn value_mut(&mut self, token: usize) -> (value: &mut V)
        requires
            old(self).wf(),
            old(self)@.contains_key(token),
        ensures
            *value == old(self)@[token].value,
            final(self).wf(),
            final(self).limit() == old(self).limit(),
            final(self)@ == old(self)@.insert(
                token,
                Entry {
                    key: old(self)@[token].key,
                    value: *final(value),
                    node: old(self)@[token].node,
                },
            ),
    {
        match &mut self.slots[token] {
            Some(item) => &mut item.value,
            None => vstd::pervasive::unreached(),
        }
    }

    /// Replaces the key and the value of a live entry.
    pub fn set_item(&mut self, token: usize, key: K, value: V)
        requires
            old(self).wf(),
            old(self)@.contains_key(token),
        ensures
            final(self).wf(),
            final(self).limit() == old(self).limit(),
            final(self)@ == old(self)@.insert(
                token,
                Entry { key, value, node: old(self)@[token].node },
            ),
    {
        self.slots.set(token, Some(Item { key, value }));
        proof {
            assert(final(self)@ =~= old(self)@.insert(
                token,
                Entry { key, value, node: old(self)@[token].node },
            ));
        }
    }

    /// Removes every entry. Every handle is invalid from then on.
    pub fn clear(&mut self)
        requires
            old(self).wf(),
        ensures
            final(self).wf(),
            final(self).limit() == old(self).limit(),
            final(self)@ == Map::<usize, Entry<K, V>>::empty(),
    {
        slab_clear(&mut self.slab);
        let n = self.slots.len();
        let mut i: usize = 0;
        while i < n
            invariant
                i <= n,
                n == self.slots@.len(),
                self.slots@.len() == slab_limit(self.slab),
                slab_nodes(self.slab).dom() == Set::<usize>::empty(),
                slab_limit(self.slab) == slab_limit(old(self).slab),
            decreases n - i,
        {
            self.slots.set(i, None);
            i += 1;
        }
        proof {
            assert(final(self)@ =~= Map::<usize, Entry<K, V>>::empty());
        }
    }
}

} // verus!
