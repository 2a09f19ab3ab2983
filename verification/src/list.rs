//! The history lists: doubly-linked lists of arena handles whose links are
//! kept in the arena entries themselves.

use crate::arena::{Arena, Entry, Node};
use std::marker::PhantomData;
use vstd::prelude::*;

verus! {

/// The handle that the entry at position `i` of `s` points back to.
pub open spec fn link_before(s: Seq<usize>, i: int) -> Option<usize> {
    if i == 0 {
        None
    } else {
        Some(s[i - 1])
    }
}

/// The handle that the entry at position `i` of `s` points on to.
pub open spec fn link_after(s: Seq<usize>, i: int) -> Option<usize> {
    if i == s.len() - 1 {
        None
    } else {
        Some(s[i + 1])
    }
}

/// The entry at position `i` of `s` is live and linked to its neighbours.
pub open spec fn linked_at<K, V>(s: Seq<usize>, arena: Map<usize, Entry<K, V>>, i: int) -> bool {
    &&& arena.contains_key(s[i])
    &&& arena[s[i]].node.prev == link_before(s, i)
    &&& arena[s[i]].node.next == link_after(s, i)
}

/// Two nodes carry the same flags.
pub open spec fn same_flags(a: Node, b: Node) -> bool {
    &&& a.is_history == b.is_history
    &&& a.is_reference == b.is_reference
    &&& a.is_longterm == b.is_longterm
}

/// `post` is `pre` with nothing changed but link fields, and those only in
/// entries whose handle is in `s`.
pub open spec fn relinked<K, V>(
    pre: Map<usize, Entry<K, V>>,
    post: Map<usize, Entry<K, V>>,
    s: Seq<usize>,
) -> bool {
    &&& post.dom() == pre.dom()
    &&& forall|t: usize| #[trigger]
        pre.contains_key(t) ==> {
            &&& post[t].key == pre[t].key
            &&& post[t].value == pre[t].value
            &&& same_flags(post[t].node, pre[t].node)
        }
    &&& forall|t: usize| #[trigger] pre.contains_key(t) && !s.contains(t) ==> post[t] == pre[t]
}

/// If every entry of duplicate-free `s` is in `dom` and `token` is in `dom`
/// but not in `s`, then `s` is shorter than `dom` is large.
proof fn lemma_room(s: Seq<usize>, dom: Set<usize>, token: usize)
    requires
        s.no_duplicates(),
        dom.finite(),
        forall|i: int| 0 <= i < s.len() ==> dom.contains(#[trigger] s[i]),
        dom.contains(token),
        !s.contains(token),
    ensures
        s.len() < dom.len(),
{
    s.unique_seq_to_set();
    let rest = dom.remove(token);
    assert(s.to_set().subset_of(rest)) by {
        assert forall|x: usize| s.to_set().contains(x) implies rest.contains(x) by {
            let i = choose|i: int| 0 <= i < s.len() && s[i] == x;
            assert(dom.contains(s[i]));
        }
    }
    vstd::set_lib::lemma_len_subset(s.to_set(), rest);
}

/// A doubly-linked list of arena handles, oldest first.
pub struct XLinkedList<K, V> {
    head: Option<usize>,
    tail: Option<usize>,
    len: usize,
    tokens: Ghost<Seq<usize>>,
    phantom_k: PhantomData<K>,
    phantom_v: PhantomData<V>,
}

impl<K, V> XLinkedList<K, V> {
    /// The handles in the list, oldest first.
    pub closed spec fn view(&self) -> Seq<usize> {
        self.tokens@
    }

    /// The list's own fields agree with its contents, which hold no handle
    /// twice.
    pub closed spec fn inv(&self) -> bool {
        let s = self.tokens@;
        &&& self.len == s.len()
        &&& self.head == if s.len() == 0 {
            None
        } else {
            Some(s[0])
        }
        &&& self.tail == if s.len() == 0 {
            None
        } else {
            Some(s[s.len() - 1])
        }
        &&& s.no_duplicates()
    }

    /// The list is consistent and its handles are live in `arena` and
    /// linked there in the list's order.
    pub open spec fn wf(&self, arena: Map<usize, Entry<K, V>>) -> bool {
        &&& self.inv()
        &&& forall|i: int| 0 <= i < self@.len() ==> #[trigger] linked_at(self@, arena, i)
    }

    /// A list stays well-formed when the arena changes outside the link
    /// fields of its entries.
    pub proof fn lemma_frame(&self, pre: Map<usize, Entry<K, V>>, post: Map<usize, Entry<K, V>>)
        requires
            self.wf(pre),
            forall|i: int|
                0 <= i < self@.len() ==> {
                    &&& post.contains_key(#[trigger] self@[i])
                    &&& post[self@[i]].node.prev == pre[self@[i]].node.prev
                    &&& post[self@[i]].node.next == pre[self@[i]].node.next
                },
        ensures
            self.wf(post),
    {
        assert forall|i: int| 0 <= i < self@.len() implies #[trigger] linked_at(
            self@,
            post,
            i,
        ) by {
            assert(linked_at(self@, pre, i));
            assert(post.contains_key(self@[i]));
        }
    }

    /// An empty list.
    pub fn new() -> (list: Self)
        ensures
            list.inv(),
            list@ == Seq::<usize>::empty(),
    {
        XLinkedList {
            head: None,
            tail: None,
            len: 0,
            tokens: Ghost(Seq::empty()),
            phantom_k: PhantomData,
            phantom_v: PhantomData,
        }
    }

    /// The number of handles in the list.
    #[inline]
    pub fn len(&self) -> (n: usize)
        requires
            self.inv(),
        ensures
            n == self@.len(),
    {
        self.len
    }

    /// Whether the list holds no handle.
    #[inline]
    pub fn is_empty(&self) -> (empty: bool)
        requires
            self.inv(),
        ensures
            empty == (self@.len() == 0),
    {
        self.len == 0
    }

    /// Forgets every handle. The entries themselves are left as they are.
    #[inline]
    pub fn clear(&mut self)
        ensures
            final(self).inv(),
            final(self)@ == Seq::<usize>::empty(),
    {
        self.len = 0;
        self.head = None;
        self.tail = None;
        self.tokens = Ghost(Seq::empty());
    }

    /// Unlinks `token`, which is in the list, and clears its link fields.
    pub fn remove(&mut self, arena: &mut Arena<K, V>, token: usize)
        requires
            old(arena).wf(),
            old(self).wf(old(arena)@),
            old(self)@.contains(token),
        ensures
            final(arena).wf(),
            final(arena).limit() == old(arena).limit(),
            final(self).wf(final(arena)@),
            final(self)@ == old(self)@.remove(old(self)@.index_of(token)),
            !final(self)@.contains(token),
            relinked(old(arena)@, final(arena)@, old(self)@),
            final(arena)@[token].node.prev is None,
            final(arena)@[token].node.next is None,
    {
        let ghost s = self.tokens@;
        let ghost i = s.index_of(token);
        let ghost pre = arena@;
        proof {
            assert(linked_at(s, pre, i));
            if i > 0 {
                assert(linked_at(s, pre, i - 1));
            }
            if i < s.len() - 1 {
                assert(linked_at(s, pre, i + 1));
            }
        }
        let mut node = arena.node(token);
        let prev_token = node.prev;
        let next_token = node.next;
        node.prev = None;
        node.next = None;
        arena.set_node(token, node);
        if let Some(prev_token) = prev_token {
            let mut before = arena.node(prev_token);
            before.next = next_token;
            arena.set_node(prev_token, before);
        } else {
            self.head = next_token;
        }
        if let Some(next_token) = next_token {
            let mut after = arena.node(next_token);
            after.prev = prev_token;
            arena.set_node(next_token, after);
        } else {
            self.tail = prev_token;
        }
        self.len -= 1;
        self.tokens = Ghost(s.remove(i));
        proof {
            let r = s.remove(i);
            let post = arena@;
            s.remove_ensures(i);
            assert(r.no_duplicates());
            assert(!r.contains(token)) by {
                if r.contains(token) {
                    let j = choose|j: int| 0 <= j < r.len() && r[j] == token;
                    if j < i {
                        assert(s[j] == token);
                    } else {
                        assert(s[j + 1] == token);
                    }
                }
            }
            assert forall|j: int| 0 <= j < r.len() implies #[trigger] linked_at(r, post, j) by {
                if j < i {
                    assert(r[j] == s[j]);
                    assert(linked_at(s, pre, j));
                    if j > 0 {
                        assert(r[j - 1] == s[j - 1]);
                    }
                    if j < i - 1 {
                        assert(r[j + 1] == s[j + 1]);
                    } else if j < r.len() - 1 {
                        assert(r[j + 1] == s[j + 2]);
                    }
                } else {
                    assert(r[j] == s[j + 1]);
                    assert(linked_at(s, pre, j + 1));
                    if j > i {
                        assert(r[j - 1] == s[j]);
                    } else if j > 0 {
                        assert(r[j - 1] == s[j - 1]);
                    }
                    if j < r.len() - 1 {
                        assert(r[j + 1] == s[j + 2]);
                    }
                }
            }
            assert(post.dom() =~= pre.dom());
            assert forall|t: usize| #[trigger] pre.contains_key(t) && !s.contains(t) implies post[t]
                == pre[t] by {
                if i > 0 {
                    assert(s[i - 1] != t);
                }
                if i < s.len() - 1 {
                    assert(s[i + 1] != t);
                }
                assert(s[i] != t);
            }
        }
    }

    /// Appends `token`, a live handle that is not in the list.
    pub fn push_back(&mut self, arena: &mut Arena<K, V>, token: usize)
        requires
            old(arena).wf(),
            old(self).wf(old(arena)@),
            old(arena)@.contains_key(token),
            !old(self)@.contains(token),
        ensures
            final(arena).wf(),
            final(arena).limit() == old(arena).limit(),
            final(self).wf(final(arena)@),
            final(self)@ == old(self)@.push(token),
            relinked(old(arena)@, final(arena)@, final(self)@),
    {
        let ghost s = self.tokens@;
        let ghost pre = arena@;
        proof {
            arena.lemma_bounds();
            assert forall|i: int| 0 <= i < s.len() implies pre.dom().contains(#[trigger] s[i]) by {
                assert(linked_at(s, pre, i));
            }
            lemma_room(s, pre.dom(), token);
            if s.len() > 0 {
                assert(linked_at(s, pre, s.len() - 1));
            }
        }
        let mut node = arena.node(token);
        node.prev = self.tail;
        node.next = None;
        arena.set_node(token, node);
        if let Some(tail_token) = self.tail {
            let mut last = arena.node(tail_token);
            last.next = Some(token);
            arena.set_node(tail_token, last);
        }
        self.tail = Some(token);
        if self.head.is_none() {
            self.head = self.tail;
        }
        self.len += 1;
        self.tokens = Ghost(s.push(token));
        proof {
            let r = s.push(token);
            let post = arena@;
            assert(r.no_duplicates());
            assert forall|j: int| 0 <= j < r.len() implies #[trigger] linked_at(r, post, j) by {
                if j < s.len() {
                    assert(r[j] == s[j]);
                    assert(linked_at(s, pre, j));
                    assert(s[j] != token);
                    if j > 0 {
                        assert(r[j - 1] == s[j - 1]);
                    }
                    if j < s.len() - 1 {
                        assert(r[j + 1] == s[j + 1]);
                    }
                }
            }
            assert(post.dom() =~= pre.dom());
            assert forall|t: usize| #[trigger] pre.contains_key(t) && !r.contains(t) implies post[t]
                == pre[t] by {
                assert(r[s.len() as int] == token);
                if s.len() > 0 {
                    assert(r[s.len() - 1] == s[s.len() - 1]);
                }
            }
        }
    }

    /// Unlinks and returns the oldest handle, if there is one.
    pub fn pop_front(&mut self, arena: &mut Arena<K, V>) -> (front: Option<usize>)
        requires
            old(arena).wf(),
            old(self).wf(old(arena)@),
        ensures
            final(arena).wf(),
            final(arena).limit() == old(arena).limit(),
            final(self).wf(final(arena)@),
            relinked(old(arena)@, final(arena)@, old(self)@),
            match front {
                Some(token) => {
                    &&& old(self)@.len() > 0
                    &&& token == old(self)@[0]
                    &&& final(self)@ == old(self)@.drop_first()
                    &&& !final(self)@.contains(token)
                    &&& final(arena)@[token].node.prev is None
                    &&& final(arena)@[token].node.next is None
                },
                None => old(self)@.len() == 0 && final(self)@ == old(self)@,
            },
    {
        let ghost s = self.tokens@;
        let ghost pre = arena@;
        let head_token = self.head;
        if let Some(head_token) = head_token {
            proof {
                assert(linked_at(s, pre, 0));
                if s.len() > 1 {
                    assert(linked_at(s, pre, 1));
                }
            }
            let mut former_head = arena.node(head_token);
            let new_head_token = former_head.next;
            former_head.next = None;
            arena.set_node(head_token, former_head);
            match new_head_token {
                None => {
                    self.clear();
                },
                Some(new_head_token) => {
                    let mut first = arena.node(new_head_token);
                    first.prev = None;
                    arena.set_node(new_head_token, first);
                    self.head = Some(new_head_token);
                    self.len -= 1;
                    self.tokens = Ghost(s.drop_first());
                },
            }
            proof {
                let r = s.drop_first();
                let post = arena@;
                assert(self.tokens@ =~= r);
                assert(r.no_duplicates());
                assert(!r.contains(head_token)) by {
                    if r.contains(head_token) {
                        let j = choose|j: int| 0 <= j < r.len() && r[j] == head_token;
                        assert(s[j + 1] == head_token);
                    }
                }
                assert forall|j: int| 0 <= j < r.len() implies #[trigger] linked_at(r, post, j) by {
                    assert(r[j] == s[j + 1]);
                    assert(linked_at(s, pre, j + 1));
                    if j > 0 {
                        assert(r[j - 1] == s[j]);
                    }
                    if j < r.len() - 1 {
                        assert(r[j + 1] == s[j + 2]);
                    }
                }
                assert(post.dom() =~= pre.dom());
                assert forall|t: usize| #[trigger]
                    pre.contains_key(t) && !s.contains(t) implies post[t] == pre[t] by {
                    assert(s[0] != t);
                    if s.len() > 1 {
                        assert(s[1] != t);
                    }
                }
            }
        }
        head_token
    }
}

} // verus!
