//! The cache: the policy of [`crate::model`] carried out on an arena of
//! entries, an index from keys to handles, two queues of resident handles
//! and two history lists.

use crate::arena::{Arena, Entry, Node, MAX_CAPACITY};
use crate::list::{relinked, XLinkedList};
use crate::model::{find, keys, stored, touched, Cart, Line};
use crate::seqs::{lemma_drop_first_contains, lemma_push_contains, lemma_remove_contains};
use std::collections::HashMap;
use std::collections::VecDeque;
use std::hash::Hash;
use vstd::prelude::*;
use vstd::std_specs::hash::obeys_key_model;

verus! {

/// The resident line that an entry stands for.
pub open spec fn line_of<K, V>(e: Entry<K, V>) -> Line<K, V> {
    Line { key: e.key, value: e.value, reference: e.node.is_reference, longterm: e.node.is_longterm }
}

/// The lines of the handles `s`, in their order.
pub open spec fn lines<K, V>(arena: Map<usize, Entry<K, V>>, s: Seq<usize>) -> Seq<Line<K, V>> {
    Seq::new(s.len(), |i: int| line_of(arena[s[i]]))
}

/// The keys of the handles `s`, in their order.
pub open spec fn ghost_keys<K, V>(arena: Map<usize, Entry<K, V>>, s: Seq<usize>) -> Seq<K> {
    Seq::new(s.len(), |i: int| arena[s[i]].key)
}

/// Every handle of `s` is live and has its history flag as given.
pub open spec fn all_live<K, V>(arena: Map<usize, Entry<K, V>>, s: Seq<usize>, history: bool) -> bool {
    forall|i: int|
        0 <= i < s.len() ==> arena.contains_key(#[trigger] s[i]) && arena[s[i]].node.is_history
            == history
}

/// Every handle of `s` has its frequency flag as given.
pub open spec fn all_longterm<K, V>(
    arena: Map<usize, Entry<K, V>>,
    s: Seq<usize>,
    longterm: bool,
) -> bool {
    forall|i: int| 0 <= i < s.len() ==> arena[#[trigger] s[i]].node.is_longterm == longterm
}

/// No handle of `s` has a link: its entry is in no history list.
pub open spec fn all_unlinked<K, V>(arena: Map<usize, Entry<K, V>>, s: Seq<usize>) -> bool {
    forall|i: int|
        0 <= i < s.len() ==> arena[#[trigger] s[i]].node.prev is None && arena[s[i]].node.next
            is None
}

/// Every live handle is in one of the four sequences.
pub open spec fn covered<K, V>(
    arena: Map<usize, Entry<K, V>>,
    t1: Seq<usize>,
    t2: Seq<usize>,
    b1: Seq<usize>,
    b2: Seq<usize>,
) -> bool {
    forall|t: usize| #[trigger]
        arena.contains_key(t) ==> t1.contains(t) || t2.contains(t) || b1.contains(t) || b2.contains(
            t,
        )
}

/// The index maps the key of every live handle to that handle, and nothing
/// else.
pub open spec fn indexed<K, V>(arena: Map<usize, Entry<K, V>>, index: Map<K, usize>) -> bool {
    &&& forall|t: usize| #[trigger]
        arena.contains_key(t) ==> index.contains_key(arena[t].key) && index[arena[t].key] == t
    &&& forall|k: K| #[trigger]
        index.contains_key(k) ==> arena.contains_key(index[k]) && arena[index[k]].key == k
}

/// The arena, the index, the queues and the histories fit together: every
/// live handle is in exactly one of the four sequences, with the flags of its
/// place, without links where that is a queue, and under its key in the
/// index.
pub open spec fn consistent<K, V>(
    arena: Map<usize, Entry<K, V>>,
    index: Map<K, usize>,
    t1: Seq<usize>,
    t2: Seq<usize>,
    b1: Seq<usize>,
    b2: Seq<usize>,
) -> bool {
    &&& t1.no_duplicates()
    &&& t2.no_duplicates()
    &&& b1.no_duplicates()
    &&& b2.no_duplicates()
    &&& t1.disjoint(t2)
    &&& all_live(arena, t1, false)
    &&& all_live(arena, t2, false)
    &&& all_live(arena, b1, true)
    &&& all_live(arena, b2, true)
    &&& all_longterm(arena, b1, false)
    &&& all_longterm(arena, b2, true)
    &&& all_unlinked(arena, t1)
    &&& all_unlinked(arena, t2)
    &&& covered(arena, t1, t2, b1, b2)
    &&& indexed(arena, index)
}

/// In how many of the four sequences the handle `t` is found.
pub open spec fn handle_places(
    t1: Seq<usize>,
    t2: Seq<usize>,
    b1: Seq<usize>,
    b2: Seq<usize>,
    t: usize,
) -> nat {
    let in_t1: nat = if t1.contains(t) {
        1
    } else {
        0
    };
    let in_t2: nat = if t2.contains(t) {
        1
    } else {
        0
    };
    let in_b1: nat = if b1.contains(t) {
        1
    } else {
        0
    };
    let in_b2: nat = if b2.contains(t) {
        1
    } else {
        0
    };
    in_t1 + in_t2 + in_b1 + in_b2
}

/// Where the structures fit together, every live handle is in exactly one
/// of the four sequences, and no other handle is in any.
pub proof fn lemma_handle_places<K, V>(
    arena: Map<usize, Entry<K, V>>,
    index: Map<K, usize>,
    t1: Seq<usize>,
    t2: Seq<usize>,
    b1: Seq<usize>,
    b2: Seq<usize>,
    t: usize,
)
    requires
        consistent(arena, index, t1, t2, b1, b2),
    ensures
        handle_places(t1, t2, b1, b2, t) == if arena.contains_key(t) {
            1nat
        } else {
            0nat
        },
{
    if t1.contains(t) {
        let i = choose|i: int| 0 <= i < t1.len() && t1[i] == t;
        assert(arena.contains_key(t1[i]) && !arena[t1[i]].node.is_history);
    }
    if t2.contains(t) {
        let i = choose|i: int| 0 <= i < t2.len() && t2[i] == t;
        assert(arena.contains_key(t2[i]) && !arena[t2[i]].node.is_history);
    }
    if b1.contains(t) {
        let i = choose|i: int| 0 <= i < b1.len() && b1[i] == t;
        assert(arena.contains_key(b1[i]) && arena[b1[i]].node.is_history
            && !arena[b1[i]].node.is_longterm);
    }
    if b2.contains(t) {
        let i = choose|i: int| 0 <= i < b2.len() && b2[i] == t;
        assert(arena.contains_key(b2[i]) && arena[b2[i]].node.is_history
            && arena[b2[i]].node.is_longterm);
    }
    if t1.contains(t) && t2.contains(t) {
        let i = choose|i: int| 0 <= i < t1.len() && t1[i] == t;
        let j = choose|j: int| 0 <= j < t2.len() && t2[j] == t;
        assert(t1[i] == t2[j]);
    }
}

/// Where the structures fit together, the index finds for a key the handle
/// of its entry, and the entry's flags tell in which sequence it is.
proof fn lemma_key_index<K, V>(
    arena: Map<usize, Entry<K, V>>,
    index: Map<K, usize>,
    t1: Seq<usize>,
    t2: Seq<usize>,
    b1: Seq<usize>,
    b2: Seq<usize>,
    k: K,
)
    requires
        consistent(arena, index, t1, t2, b1, b2),
    ensures
        index.contains_key(k) <==> keys(lines(arena, t1)).contains(k) || keys(
            lines(arena, t2),
        ).contains(k) || ghost_keys(arena, b1).contains(k) || ghost_keys(arena, b2).contains(k),
        index.contains_key(k) ==> {
            let t = index[k];
            let node = arena[t].node;
            &&& arena.contains_key(t)
            &&& arena[t].key == k
            &&& !node.is_history ==> {
                &&& t1.contains(t) || t2.contains(t)
                &&& !b1.contains(t) && !b2.contains(t)
                &&& find(lines(arena, t1), k) == if t1.contains(t) {
                    Some(arena[t].value)
                } else {
                    None
                }
                &&& find(lines(arena, t2), k) == if t2.contains(t) {
                    Some(arena[t].value)
                } else {
                    None
                }
                &&& !ghost_keys(arena, b1).contains(k)
                &&& !ghost_keys(arena, b2).contains(k)
            }
            &&& node.is_history ==> {
                &&& !keys(lines(arena, t1)).contains(k)
                &&& !keys(lines(arena, t2)).contains(k)
                &&& !t1.contains(t) && !t2.contains(t)
            }
            &&& node.is_history && !node.is_longterm ==> {
                &&& b1.contains(t)
                &&& !b2.contains(t)
                &&& ghost_keys(arena, b1).contains(k)
                &&& !ghost_keys(arena, b2).contains(k)
                &&& ghost_keys(arena, b1).index_of(k) == b1.index_of(t)
            }
            &&& node.is_history && node.is_longterm ==> {
                &&& b2.contains(t)
                &&& !b1.contains(t)
                &&& ghost_keys(arena, b2).contains(k)
                &&& !ghost_keys(arena, b1).contains(k)
                &&& ghost_keys(arena, b2).index_of(k) == b2.index_of(t)
            }
        },
{
    let k1 = keys(lines(arena, t1));
    let k2 = keys(lines(arena, t2));
    let g1 = ghost_keys(arena, b1);
    let g2 = ghost_keys(arena, b2);
    // A key found in a sequence is the key of a live handle there.
    assert forall|i: int| 0 <= i < t1.len() && k1[i] == k implies index.contains_key(k) && index[k]
        == t1[i] by {
        assert(arena.contains_key(t1[i]));
    }
    assert forall|i: int| 0 <= i < t2.len() && k2[i] == k implies index.contains_key(k) && index[k]
        == t2[i] by {
        assert(arena.contains_key(t2[i]));
    }
    assert forall|i: int| 0 <= i < b1.len() && g1[i] == k implies index.contains_key(k) && index[k]
        == b1[i] by {
        assert(arena.contains_key(b1[i]));
    }
    assert forall|i: int| 0 <= i < b2.len() && g2[i] == k implies index.contains_key(k) && index[k]
        == b2[i] by {
        assert(arena.contains_key(b2[i]));
    }
    if k1.contains(k) {
        let i = choose|i: int| 0 <= i < k1.len() && k1[i] == k;
        assert(k1[i] == k && 0 <= i < t1.len());
    }
    if k2.contains(k) {
        let i = choose|i: int| 0 <= i < k2.len() && k2[i] == k;
        assert(k2[i] == k && 0 <= i < t2.len());
    }
    if g1.contains(k) {
        let i = choose|i: int| 0 <= i < g1.len() && g1[i] == k;
        assert(g1[i] == k && 0 <= i < b1.len());
    }
    if g2.contains(k) {
        let i = choose|i: int| 0 <= i < g2.len() && g2[i] == k;
        assert(g2[i] == k && 0 <= i < b2.len());
    }
    if index.contains_key(k) {
        let t = index[k];
        assert(arena.contains_key(t));
        if t1.contains(t) {
            let i = choose|i: int| 0 <= i < t1.len() && t1[i] == t;
            assert(k1[i] == k);
            assert(!arena[t1[i]].node.is_history);
            let j = k1.index_of(k);
            assert(t1[j] == t);
        }
        if t2.contains(t) {
            let i = choose|i: int| 0 <= i < t2.len() && t2[i] == t;
            assert(k2[i] == k);
            assert(!arena[t2[i]].node.is_history);
            let j = k2.index_of(k);
            assert(t2[j] == t);
        }
        if b1.contains(t) {
            let i = choose|i: int| 0 <= i < b1.len() && b1[i] == t;
            assert(g1[i] == k);
            assert(arena[b1[i]].node.is_history && !arena[b1[i]].node.is_longterm);
            let j = g1.index_of(k);
            assert(b1[j] == t);
            let j2 = b1.index_of(t);
            assert(b1[j2] == t);
        }
        if b2.contains(t) {
            let i = choose|i: int| 0 <= i < b2.len() && b2[i] == t;
            assert(g2[i] == k);
            assert(arena[b2[i]].node.is_history && arena[b2[i]].node.is_longterm);
            let j = g2.index_of(k);
            assert(b2[j] == t);
            let j2 = b2.index_of(t);
            assert(b2[j2] == t);
        }
    }
}

/// The structures still fit together after a change of the arena that
/// keeps the live handles, their keys, their links, and their history and
/// frequency flags.
proof fn lemma_consistent_update<K, V>(
    pre: Map<usize, Entry<K, V>>,
    post: Map<usize, Entry<K, V>>,
    index: Map<K, usize>,
    t1: Seq<usize>,
    t2: Seq<usize>,
    b1: Seq<usize>,
    b2: Seq<usize>,
)
    requires
        consistent(pre, index, t1, t2, b1, b2),
        post.dom() == pre.dom(),
        forall|t: usize| #[trigger]
            pre.contains_key(t) ==> {
                &&& post[t].key == pre[t].key
                &&& post[t].node.prev == pre[t].node.prev
                &&& post[t].node.next == pre[t].node.next
                &&& post[t].node.is_history == pre[t].node.is_history
                &&& post[t].node.is_longterm == pre[t].node.is_longterm
            },
    ensures
        consistent(post, index, t1, t2, b1, b2),
        ghost_keys(post, b1) == ghost_keys(pre, b1),
        ghost_keys(post, b2) == ghost_keys(pre, b2),
{
    assert forall|t: usize| #[trigger] post.contains_key(t) implies index.contains_key(post[t].key)
        && index[post[t].key] == t by {
        assert(pre.contains_key(t));
    }
    assert forall|k: K| #[trigger] index.contains_key(k) implies post.contains_key(index[k])
        && post[index[k]].key == k by {
        assert(pre.contains_key(index[k]));
    }
    assert forall|t: usize| #[trigger] post.contains_key(t) implies t1.contains(t) || t2.contains(t)
        || b1.contains(t) || b2.contains(t) by {
        assert(pre.contains_key(t));
    }
    assert forall|i: int| 0 <= i < t1.len() implies post[#[trigger] t1[i]].node.prev is None
        && post[t1[i]].node.next is None by {
        assert(pre.contains_key(t1[i]));
    }
    assert forall|i: int| 0 <= i < t2.len() implies post[#[trigger] t2[i]].node.prev is None
        && post[t2[i]].node.next is None by {
        assert(pre.contains_key(t2[i]));
    }
    assert(ghost_keys(post, b1) =~= ghost_keys(pre, b1));
    assert(ghost_keys(post, b2) =~= ghost_keys(pre, b2));
}

/// The structures still fit together after the handle `x` has moved from
/// one sequence to another, or within one, and its flags were set to those
/// of its new place, where nothing else has changed its place, key or flags.
proof fn lemma_consistent_moved<K, V>(
    pre: Map<usize, Entry<K, V>>,
    post: Map<usize, Entry<K, V>>,
    index: Map<K, usize>,
    from: (Seq<usize>, Seq<usize>, Seq<usize>, Seq<usize>),
    to: (Seq<usize>, Seq<usize>, Seq<usize>, Seq<usize>),
    x: usize,
)
    requires
        consistent(pre, index, from.0, from.1, from.2, from.3),
        pre.contains_key(x),
        post.dom() == pre.dom(),
        post[x].key == pre[x].key,
        forall|t: usize| #[trigger]
            pre.contains_key(t) && t != x ==> {
                &&& post[t].key == pre[t].key
                &&& post[t].node.is_history == pre[t].node.is_history
                &&& post[t].node.is_longterm == pre[t].node.is_longterm
                &&& !pre[t].node.is_history ==> post[t].node.prev == pre[t].node.prev
                    && post[t].node.next == pre[t].node.next
            },
        to.0.no_duplicates(),
        to.1.no_duplicates(),
        to.2.no_duplicates(),
        to.3.no_duplicates(),
        forall|t: usize| t != x ==> (#[trigger] to.0.contains(t) <==> from.0.contains(t)),
        forall|t: usize| t != x ==> (#[trigger] to.1.contains(t) <==> from.1.contains(t)),
        forall|t: usize| t != x ==> (#[trigger] to.2.contains(t) <==> from.2.contains(t)),
        forall|t: usize| t != x ==> (#[trigger] to.3.contains(t) <==> from.3.contains(t)),
        to.0.contains(x) || to.1.contains(x) || to.2.contains(x) || to.3.contains(x),
        !(to.0.contains(x) && to.1.contains(x)),
        to.0.contains(x) || to.1.contains(x) ==> !post[x].node.is_history && post[x].node.prev
            is None && post[x].node.next is None,
        to.2.contains(x) ==> post[x].node.is_history && !post[x].node.is_longterm,
        to.3.contains(x) ==> post[x].node.is_history && post[x].node.is_longterm,
    ensures
        consistent(post, index, to.0, to.1, to.2, to.3),
{
    assert forall|i: int| 0 <= i < to.0.len() implies post.contains_key(#[trigger] to.0[i])
        && !post[to.0[i]].node.is_history by {
        let t = to.0[i];
        assert(to.0.contains(t));
        if t != x {
            let j = choose|j: int| 0 <= j < from.0.len() && from.0[j] == t;
            assert(pre.contains_key(from.0[j]));
        }
    }
    assert forall|i: int| 0 <= i < to.1.len() implies post.contains_key(#[trigger] to.1[i])
        && !post[to.1[i]].node.is_history by {
        let t = to.1[i];
        assert(to.1.contains(t));
        if t != x {
            let j = choose|j: int| 0 <= j < from.1.len() && from.1[j] == t;
            assert(pre.contains_key(from.1[j]));
        }
    }
    assert forall|i: int| 0 <= i < to.2.len() implies post.contains_key(#[trigger] to.2[i])
        && post[to.2[i]].node.is_history && !post[to.2[i]].node.is_longterm by {
        let t = to.2[i];
        assert(to.2.contains(t));
        if t != x {
            let j = choose|j: int| 0 <= j < from.2.len() && from.2[j] == t;
            assert(pre.contains_key(from.2[j]));
        }
    }
    assert forall|i: int| 0 <= i < to.3.len() implies post.contains_key(#[trigger] to.3[i])
        && post[to.3[i]].node.is_history && post[to.3[i]].node.is_longterm by {
        let t = to.3[i];
        assert(to.3.contains(t));
        if t != x {
            let j = choose|j: int| 0 <= j < from.3.len() && from.3[j] == t;
            assert(pre.contains_key(from.3[j]));
        }
    }
    assert forall|i: int| 0 <= i < to.0.len() implies post[#[trigger] to.0[i]].node.prev is None
        && post[to.0[i]].node.next is None by {
        let t = to.0[i];
        assert(to.0.contains(t));
        if t != x {
            let j = choose|j: int| 0 <= j < from.0.len() && from.0[j] == t;
            assert(pre.contains_key(from.0[j]));
        }
    }
    assert forall|i: int| 0 <= i < to.1.len() implies post[#[trigger] to.1[i]].node.prev is None
        && post[to.1[i]].node.next is None by {
        let t = to.1[i];
        assert(to.1.contains(t));
        if t != x {
            let j = choose|j: int| 0 <= j < from.1.len() && from.1[j] == t;
            assert(pre.contains_key(from.1[j]));
        }
    }
    assert forall|i: int, j: int| 0 <= i < to.0.len() && 0 <= j < to.1.len() implies to.0[i]
        != to.1[j] by {
        let t = to.0[i];
        assert(to.0.contains(t));
        if t == to.1[j] {
            assert(to.1.contains(t));
            let a = choose|a: int| 0 <= a < from.0.len() && from.0[a] == t;
            let b = choose|b: int| 0 <= b < from.1.len() && from.1[b] == t;
            assert(from.0[a] == from.1[b]);
        }
    }
    assert forall|t: usize| #[trigger] post.contains_key(t) implies to.0.contains(t)
        || to.1.contains(t) || to.2.contains(t) || to.3.contains(t) by {
        assert(pre.contains_key(t));
    }
    assert forall|t: usize| #[trigger] post.contains_key(t) implies index.contains_key(post[t].key)
        && index[post[t].key] == t by {
        assert(pre.contains_key(t));
    }
    assert forall|k: K| #[trigger] index.contains_key(k) implies post.contains_key(index[k])
        && post[index[k]].key == k by {
        assert(pre.contains_key(index[k]));
    }
}

/// The structures still fit together after the handle `x`, which was in one
/// of the sequences, has left the arena, its sequence and the index.
proof fn lemma_consistent_removed<K, V>(
    pre: Map<usize, Entry<K, V>>,
    post: Map<usize, Entry<K, V>>,
    index: Map<K, usize>,
    from: (Seq<usize>, Seq<usize>, Seq<usize>, Seq<usize>),
    to: (Seq<usize>, Seq<usize>, Seq<usize>, Seq<usize>),
    x: usize,
)
    requires
        consistent(pre, index, from.0, from.1, from.2, from.3),
        pre.contains_key(x),
        post.dom() == pre.dom().remove(x),
        forall|t: usize| #[trigger]
            pre.contains_key(t) && t != x ==> {
                &&& post[t].key == pre[t].key
                &&& post[t].node.is_history == pre[t].node.is_history
                &&& post[t].node.is_longterm == pre[t].node.is_longterm
                &&& !pre[t].node.is_history ==> post[t].node.prev == pre[t].node.prev
                    && post[t].node.next == pre[t].node.next
            },
        to.0.no_duplicates(),
        to.1.no_duplicates(),
        to.2.no_duplicates(),
        to.3.no_duplicates(),
        forall|t: usize| t != x ==> (#[trigger] to.0.contains(t) <==> from.0.contains(t)),
        forall|t: usize| t != x ==> (#[trigger] to.1.contains(t) <==> from.1.contains(t)),
        forall|t: usize| t != x ==> (#[trigger] to.2.contains(t) <==> from.2.contains(t)),
        forall|t: usize| t != x ==> (#[trigger] to.3.contains(t) <==> from.3.contains(t)),
        !to.0.contains(x),
        !to.1.contains(x),
        !to.2.contains(x),
        !to.3.contains(x),
    ensures
        consistent(post, index.remove(pre[x].key), to.0, to.1, to.2, to.3),
{
    let index2 = index.remove(pre[x].key);
    assert forall|i: int| 0 <= i < to.0.len() implies post.contains_key(#[trigger] to.0[i])
        && !post[to.0[i]].node.is_history by {
        let t = to.0[i];
        assert(to.0.contains(t));
        let j = choose|j: int| 0 <= j < from.0.len() && from.0[j] == t;
        assert(pre.contains_key(from.0[j]));
    }
    assert forall|i: int| 0 <= i < to.1.len() implies post.contains_key(#[trigger] to.1[i])
        && !post[to.1[i]].node.is_history by {
        let t = to.1[i];
        assert(to.1.contains(t));
        let j = choose|j: int| 0 <= j < from.1.len() && from.1[j] == t;
        assert(pre.contains_key(from.1[j]));
    }
    assert forall|i: int| 0 <= i < to.2.len() implies post.contains_key(#[trigger] to.2[i])
        && post[to.2[i]].node.is_history && !post[to.2[i]].node.is_longterm by {
        let t = to.2[i];
        assert(to.2.contains(t));
        let j = choose|j: int| 0 <= j < from.2.len() && from.2[j] == t;
        assert(pre.contains_key(from.2[j]));
    }
    assert forall|i: int| 0 <= i < to.3.len() implies post.contains_key(#[trigger] to.3[i])
        && post[to.3[i]].node.is_history && post[to.3[i]].node.is_longterm by {
        let t = to.3[i];
        assert(to.3.contains(t));
        let j = choose|j: int| 0 <= j < from.3.len() && from.3[j] == t;
        assert(pre.contains_key(from.3[j]));
    }
    assert forall|i: int| 0 <= i < to.0.len() implies post[#[trigger] to.0[i]].node.prev is None
        && post[to.0[i]].node.next is None by {
        let t = to.0[i];
        assert(to.0.contains(t));
        if t != x {
            let j = choose|j: int| 0 <= j < from.0.len() && from.0[j] == t;
            assert(pre.contains_key(from.0[j]));
        }
    }
    assert forall|i: int| 0 <= i < to.1.len() implies post[#[trigger] to.1[i]].node.prev is None
        && post[to.1[i]].node.next is None by {
        let t = to.1[i];
        assert(to.1.contains(t));
        if t != x {
            let j = choose|j: int| 0 <= j < from.1.len() && from.1[j] == t;
            assert(pre.contains_key(from.1[j]));
        }
    }
    assert forall|i: int, j: int| 0 <= i < to.0.len() && 0 <= j < to.1.len() implies to.0[i]
        != to.1[j] by {
        let t = to.0[i];
        assert(to.0.contains(t));
        if t == to.1[j] {
            assert(to.1.contains(t));
            let a = choose|a: int| 0 <= a < from.0.len() && from.0[a] == t;
            let b = choose|b: int| 0 <= b < from.1.len() && from.1[b] == t;
            assert(from.0[a] == from.1[b]);
        }
    }
    assert forall|t: usize| #[trigger] post.contains_key(t) implies to.0.contains(t)
        || to.1.contains(t) || to.2.contains(t) || to.3.contains(t) by {
        assert(pre.contains_key(t));
    }
    assert forall|t: usize| #[trigger] post.contains_key(t) implies index2.contains_key(post[t].key)
        && index2[post[t].key] == t by {
        assert(pre.contains_key(t));
        assert(pre.contains_key(x));
    }
    assert forall|k: K| #[trigger] index2.contains_key(k) implies post.contains_key(index2[k])
        && post[index2[k]].key == k by {
        assert(index.contains_key(k));
        assert(pre.contains_key(index[k]));
    }
}

/// The structures still fit together after a new resident entry has joined
/// the arena under the handle `x`, the tail of the recency queue and the
/// index.
proof fn lemma_consistent_added<K, V>(
    pre: Map<usize, Entry<K, V>>,
    index: Map<K, usize>,
    t1: Seq<usize>,
    t2: Seq<usize>,
    b1: Seq<usize>,
    b2: Seq<usize>,
    x: usize,
    e: Entry<K, V>,
)
    requires
        consistent(pre, index, t1, t2, b1, b2),
        !pre.contains_key(x),
        !index.contains_key(e.key),
        !e.node.is_history,
        e.node.prev is None,
        e.node.next is None,
    ensures
        consistent(pre.insert(x, e), index.insert(e.key, x), t1.push(x), t2, b1, b2),
        !t1.contains(x),
{
    let post = pre.insert(x, e);
    let index2 = index.insert(e.key, x);
    let r = t1.push(x);
    lemma_push_contains(t1, x);
    assert(!t1.contains(x)) by {
        if t1.contains(x) {
            let i = choose|i: int| 0 <= i < t1.len() && t1[i] == x;
            assert(pre.contains_key(t1[i]));
        }
    }
    assert forall|i: int| 0 <= i < r.len() implies post.contains_key(#[trigger] r[i])
        && !post[r[i]].node.is_history by {
        if i < t1.len() {
            assert(pre.contains_key(t1[i]));
        }
    }
    assert forall|i: int| 0 <= i < t2.len() implies post.contains_key(#[trigger] t2[i])
        && !post[t2[i]].node.is_history by {
        assert(pre.contains_key(t2[i]));
    }
    assert forall|i: int| 0 <= i < r.len() implies post[#[trigger] r[i]].node.prev is None
        && post[r[i]].node.next is None by {
        if i < t1.len() {
            assert(pre.contains_key(t1[i]));
        }
    }
    assert forall|i: int| 0 <= i < t2.len() implies post[#[trigger] t2[i]].node.prev is None
        && post[t2[i]].node.next is None by {
        assert(pre.contains_key(t2[i]));
    }
    assert forall|i: int| 0 <= i < b1.len() implies post.contains_key(#[trigger] b1[i])
        && post[b1[i]].node.is_history && !post[b1[i]].node.is_longterm by {
        assert(pre.contains_key(b1[i]));
    }
    assert forall|i: int| 0 <= i < b2.len() implies post.contains_key(#[trigger] b2[i])
        && post[b2[i]].node.is_history && post[b2[i]].node.is_longterm by {
        assert(pre.contains_key(b2[i]));
    }
    assert forall|i: int, j: int| 0 <= i < r.len() && 0 <= j < t2.len() implies r[i] != t2[j] by {
        assert(pre.contains_key(t2[j]));
        if i < t1.len() {
            assert(t1[i] != t2[j]);
        }
    }
    assert forall|t: usize| #[trigger] post.contains_key(t) implies r.contains(t) || t2.contains(t)
        || b1.contains(t) || b2.contains(t) by {
        if t != x {
            assert(pre.contains_key(t));
        }
    }
    assert forall|t: usize| #[trigger] post.contains_key(t) implies index2.contains_key(post[t].key)
        && index2[post[t].key] == t by {
        if t != x {
            assert(pre.contains_key(t));
        }
    }
    assert forall|k: K| #[trigger] index2.contains_key(k) implies post.contains_key(index2[k])
        && post[index2[k]].key == k by {
        if k != e.key {
            assert(index.contains_key(k));
            assert(pre.contains_key(index[k]));
        }
    }
}

/// A clone of a key is that key.
pub open spec fn clones_equal<K: Clone>() -> bool {
    forall|a: K, b: K| #[trigger] cloned(a, b) ==> a == b
}

/// A cache with the CART replacement policy.
pub struct CartCache<K, V> where K: Eq + Hash {
    arena: Arena<K, V>,
    map: HashMap<K, usize>,
    t1: VecDeque<usize>,
    t2: VecDeque<usize>,
    b1: XLinkedList<K, V>,
    b2: XLinkedList<K, V>,
    c: usize,
    capacity: usize,
    p: usize,
    q: usize,
    shortterm_count: usize,
    longterm_count: usize,
    inserted: u64,
    evicted: u64,
}

impl<K: Eq + Hash, V> CartCache<K, V> {
    /// The state of the cache.
    pub closed spec fn view(&self) -> Cart<K, V> {
        Cart {
            capacity: self.capacity as nat,
            t1: lines(self.arena@, self.t1@),
            t2: lines(self.arena@, self.t2@),
            b1: ghost_keys(self.arena@, self.b1@),
            b2: ghost_keys(self.arena@, self.b2@),
            p: self.p as nat,
            q: self.q as nat,
            shortterm_count: self.shortterm_count as nat,
            longterm_count: self.longterm_count as nat,
            inserted: self.inserted as nat,
            evicted: self.evicted as nat,
        }
    }

    /// The parts of the cache fit together.
    spec fn structure(&self) -> bool {
        &&& obeys_key_model::<K>()
        &&& self.arena.wf()
        &&& self.arena.limit() == self.capacity
        &&& self.capacity <= MAX_CAPACITY
        &&& self.c == self.capacity / 2
        &&& self.b1.wf(self.arena@)
        &&& self.b2.wf(self.arena@)
        &&& consistent(self.arena@, self.map@, self.t1@, self.t2@, self.b1@, self.b2@)
        &&& self.arena.len() == self.t1@.len() + self.t2@.len() + self.b1@.len() + self.b2@.len()
        &&& self.map@.len() == self.arena.len()
    }

    /// The cache is well-formed: its parts fit together and its state meets
    /// the invariants of the policy.
    pub closed spec fn wf(&self) -> bool {
        &&& self.structure()
        &&& self@.counts_ok()
        &&& self@.ghost_len() <= self@.c()
    }

    /// Makes an empty cache with room for `capacity` entries, resident and
    /// ghost. A capacity of zero is refused.
    pub fn new(capacity: usize) -> (r: Result<CartCache<K, V>, &'static str>)
        requires
            obeys_key_model::<K>(),
            capacity <= MAX_CAPACITY,
        ensures
            capacity == 0 <==> r is Err,
            match r {
                Ok(cache) => cache.wf() && cache@ == Cart::<K, V>::fresh(capacity as nat),
                Err(e) => e@ == "Cache length cannot be zero"@,
            },
    {
        if capacity == 0 {
            return Err("Cache length cannot be zero");
        }
        let c = capacity / 2;
        let arena = Arena::with_capacity(capacity);
        let map = HashMap::with_capacity(c);
        let t1 = VecDeque::with_capacity(c);
        let t2 = VecDeque::with_capacity(c);
        let b1 = XLinkedList::new();
        let b2 = XLinkedList::new();
        let cache = CartCache {
            arena,
            map,
            t1,
            t2,
            b1,
            b2,
            c,
            capacity,
            p: 0,
            q: 0,
            shortterm_count: 0,
            longterm_count: 0,
            inserted: 0,
            evicted: 0,
        };
        proof {
            assert(cache@.t1 =~= Seq::empty());
            assert(cache@.t2 =~= Seq::empty());
            assert(cache@.b1 =~= Seq::empty());
            assert(cache@.b2 =~= Seq::empty());
            assert(cache.map@.dom() =~= Set::empty());
            assert(cache.arena@.dom() =~= Set::empty());
        }
        Ok(cache)
    }

    /// The number of entries, resident and ghost, that the cache has room
    /// for.
    pub fn capacity(&self) -> (n: usize)
        ensures
            n == self@.capacity,
    {
        self.capacity
    }

    /// The number of entries, resident and ghost.
    pub fn len(&self) -> (n: usize)
        requires
            self.wf(),
        ensures
            n == self@.len(),
    {
        self.map.len()
    }

    /// The number of entries of the frequency class: the resident lines
    /// with the frequency bit and the ghosts of the frequency history.
    pub fn frequent_len(&self) -> (n: usize)
        requires
            self.wf(),
        ensures
            n == self@.longterm_count + self@.b2.len(),
    {
        proof {
            self.arena.lemma_bounds();
        }
        self.longterm_count + self.b2.len()
    }

    /// The number of entries of the recency class: the resident lines
    /// without the frequency bit and the ghosts of the recency history.
    pub fn recent_len(&self) -> (n: usize)
        requires
            self.wf(),
        ensures
            n == self@.shortterm_count + self@.b1.len(),
    {
        proof {
            self.arena.lemma_bounds();
        }
        self.shortterm_count + self.b1.len()
    }

    /// The number of keys inserted since the cache was last empty.
    pub fn inserted(&self) -> (n: u64)
        ensures
            n == self@.inserted,
    {
        self.inserted
    }

    /// The number of replacements since the cache was last empty.
    pub fn evicted(&self) -> (n: u64)
        ensures
            n == self@.evicted,
    {
        self.evicted
    }

    /// Whether `key` has an entry, resident or ghost.
    pub fn contains_key(&self, key: &K) -> (found: bool)
        requires
            self.wf(),
        ensures
            found == self@.contains_key(*key),
    {
        proof {
            lemma_key_index(self.arena@, self.map@, self.t1@, self.t2@, self.b1@, self.b2@, *key);
        }
        self.map.contains_key(key)
    }

    /// Looks `key` up. A resident entry is touched: its clock bit is set,
    /// and its value is returned. A key that is absent or a ghost has no
    /// value, and nothing changes.
    pub fn get(&mut self, key: &K) -> (r: Option<&V>)
        requires
            old(self).wf(),
        ensures
            final(self).wf(),
            final(self)@ == old(self)@.touch(*key),
            match r {
                Some(v) => old(self)@.lookup(*key) == Some(*v),
                None => old(self)@.lookup(*key) is None,
            },
    {
        proof {
            lemma_key_index(self.arena@, self.map@, self.t1@, self.t2@, self.b1@, self.b2@, *key);
            if !self@.is_resident(*key) {
                self.lemma_touch_absent(*key);
            }
        }
        let token = match self.map.get(key) {
            Some(t) => *t,
            None => {
                return None;
            },
        };
        let mut node = self.arena.node(token);
        if node.is_history {
            return None;
        }
        node.is_reference = true;
        self.arena.set_node(token, node);
        proof {
            let pre = old(self).arena@;
            let post = self.arena@;
            assert(post.dom() =~= pre.dom());
            lemma_consistent_update(pre, post, self.map@, self.t1@, self.t2@, self.b1@, self.b2@);
            self.b1.lemma_frame(pre, post);
            self.b2.lemma_frame(pre, post);
            assert(lines(post, self.t1@) =~= touched(lines(pre, self.t1@), *key)) by {
                assert forall|i: int| 0 <= i < self.t1@.len() implies lines(post, self.t1@)[i]
                    == touched(lines(pre, self.t1@), *key)[i] by {
                    assert(pre.contains_key(self.t1@[i]));
                }
            }
            assert(lines(post, self.t2@) =~= touched(lines(pre, self.t2@), *key)) by {
                assert forall|i: int| 0 <= i < self.t2@.len() implies lines(post, self.t2@)[i]
                    == touched(lines(pre, self.t2@), *key)[i] by {
                    assert(pre.contains_key(self.t2@[i]));
                }
            }
            old(self)@.lemma_touch_counts(*key);
        }
        Some(self.arena.value(token))
    }

    /// A lookup of a key without a resident entry changes nothing.
    proof fn lemma_touch_absent(&self, k: K)
        requires
            !self@.is_resident(k),
        ensures
            self@.touch(k) == self@,
    {
        let s = self@;
        assert(touched(s.t1, k) =~= s.t1) by {
            assert forall|i: int| 0 <= i < s.t1.len() implies touched(s.t1, k)[i] == s.t1[i] by {
                assert(keys(s.t1)[i] == s.t1[i].key);
            }
        }
        assert(touched(s.t2, k) =~= s.t2) by {
            assert forall|i: int| 0 <= i < s.t2.len() implies touched(s.t2, k)[i] == s.t2[i] by {
                assert(keys(s.t2)[i] == s.t2[i].key);
            }
        }
    }

    /// What the replacement leaves as it is: the index, and the ghosts of
    /// `pre` in their histories.
    spec fn ghosts_kept(&self, pre: &Self) -> bool {
        &&& self.map@ == pre.map@
        &&& forall|t: usize| pre.b1@.contains(t) ==> #[trigger] self.b1@.contains(t)
        &&& forall|t: usize| pre.b2@.contains(t) ==> #[trigger] self.b2@.contains(t)
    }

    /// Whether the front of the frequency queue gets a second chance.
    fn t2_front_referenced(&self) -> (due: bool)
        requires
            self.structure(),
        ensures
            due == self@.t2_front_referenced(),
    {
        if self.t2.len() == 0 {
            return false;
        }
        let token = self.t2[0];
        self.arena.node(token).is_reference
    }

    /// One step of the sweep over the frequency queue.
    fn second_chance(&mut self)
        requires
            old(self).structure(),
            old(self)@.counts_ok(),
            old(self)@.t2_front_referenced(),
        ensures
            final(self).structure(),
            final(self)@ == old(self)@.second_chance(),
            final(self).ghosts_kept(old(self)),
    {
        let ghost pre = self.arena@;
        let ghost t1 = self.t1@;
        let ghost t2 = self.t2@;
        proof {
            self.arena.lemma_bounds();
            self@.lemma_second_chance();
            assert(pre.contains_key(t2[0]));
        }
        let token = self.t2[0];
        let _ = self.t2.pop_front();
        let mut node = self.arena.node(token);
        node.is_reference = false;
        self.arena.set_node(token, node);
        self.t1.push_back(token);
        if self.t2.len() + self.b2.len() + self.t1.len() - self.shortterm_count >= self.c {
            let room = self.capacity - self.t1.len();
            self.q = if self.q + 1 <= room {
                self.q + 1
            } else {
                room
            };
        }
        proof {
            let post = self.arena@;
            assert(post.dom() =~= pre.dom());
            lemma_drop_first_contains(t2);
            lemma_push_contains(t1, token);
            assert(!t1.contains(token)) by {
                if t1.contains(token) {
                    let i = choose|i: int| 0 <= i < t1.len() && t1[i] == token;
                    assert(t1[i] == t2[0]);
                }
            }
            lemma_consistent_moved(
                pre,
                post,
                self.map@,
                (t1, t2, self.b1@, self.b2@),
                (self.t1@, self.t2@, self.b1@, self.b2@),
                token,
            );
            self.b1.lemma_frame(pre, post);
            self.b2.lemma_frame(pre, post);
            assert(ghost_keys(post, self.b1@) =~= ghost_keys(pre, self.b1@));
            assert(ghost_keys(post, self.b2@) =~= ghost_keys(pre, self.b2@));
            assert(lines(post, self.t1@) =~= old(self)@.second_chance().t1);
            assert(lines(post, self.t2@) =~= old(self)@.second_chance().t2);
        }
    }

    /// The sweep over the frequency queue.
    fn replace_t2(&mut self)
        requires
            old(self).structure(),
            old(self)@.counts_ok(),
        ensures
            final(self).structure(),
            final(self)@.counts_ok(),
            final(self)@ == old(self)@.replace_t2(),
            final(self).ghosts_kept(old(self)),
            final(self)@.resident_len() == old(self)@.resident_len(),
            final(self)@.b1 == old(self)@.b1,
            final(self)@.b2 == old(self)@.b2,
            final(self)@.same_totals(old(self)@),
    {
        while self.t2_front_referenced()
            invariant
                self.structure(),
                self@.counts_ok(),
                self@.replace_t2() == old(self)@.replace_t2(),
                self.ghosts_kept(old(self)),
                self@.resident_len() == old(self)@.resident_len(),
                self@.b1 == old(self)@.b1,
                self@.b2 == old(self)@.b2,
                self@.same_totals(old(self)@),
            decreases self@.t2.len(),
        {
            proof {
                self@.lemma_second_chance();
            }
            self.second_chance();
        }
    }

    /// Whether the front of the recency queue is passed over by the sweep.
    fn t1_front_passed(&self) -> (passed: bool)
        requires
            self.structure(),
        ensures
            passed == self@.t1_front_passed(),
    {
        if self.t1.len() == 0 {
            return false;
        }
        let token = self.t1[0];
        let node = self.arena.node(token);
        node.is_longterm || node.is_reference
    }

    /// One step of the sweep over the recency queue.
    fn pass_t1_front(&mut self)
        requires
            old(self).structure(),
            old(self)@.counts_ok(),
            old(self)@.t1_front_passed(),
        ensures
            final(self).structure(),
            final(self)@ == old(self)@.pass_t1_front(),
            final(self).ghosts_kept(old(self)),
    {
        let ghost pre = self.arena@;
        let ghost t1 = self.t1@;
        let ghost t2 = self.t2@;
        proof {
            self.arena.lemma_bounds();
            self@.lemma_pass_t1_front();
            assert(pre.contains_key(t1[0]));
            lemma_drop_first_contains(t1);
            assert(!t2.contains(t1[0])) by {
                if t2.contains(t1[0]) {
                    let i = choose|i: int| 0 <= i < t2.len() && t2[i] == t1[0];
                    assert(t1[0] == t2[i]);
                }
            }
        }
        let token = self.t1[0];
        let _ = self.t1.pop_front();
        let mut node = self.arena.node(token);
        if node.is_reference {
            node.is_reference = false;
            self.t1.push_back(token);
            let threshold = if self.p + 1 <= self.b1.len() {
                self.p + 1
            } else {
                self.b1.len()
            };
            if self.t1.len() >= threshold && !node.is_longterm {
                node.is_longterm = true;
                self.shortterm_count -= 1;
                self.longterm_count += 1;
            }
            self.arena.set_node(token, node);
            proof {
                lemma_push_contains(t1.drop_first(), token);
            }
        } else {
            self.t2.push_back(token);
            let floor = self.c - self.t1.len();
            self.q = if self.q > 0 && self.q - 1 >= floor {
                self.q - 1
            } else {
                floor
            };
            proof {
                lemma_push_contains(t2, token);
            }
        }
        proof {
            let post = self.arena@;
            assert(post.dom() =~= pre.dom());
            lemma_consistent_moved(
                pre,
                post,
                self.map@,
                (t1, t2, self.b1@, self.b2@),
                (self.t1@, self.t2@, self.b1@, self.b2@),
                token,
            );
            self.b1.lemma_frame(pre, post);
            self.b2.lemma_frame(pre, post);
            assert(ghost_keys(post, self.b1@) =~= ghost_keys(pre, self.b1@));
            assert(ghost_keys(post, self.b2@) =~= ghost_keys(pre, self.b2@));
            assert(lines(post, self.t1@) =~= old(self)@.pass_t1_front().t1);
            assert(lines(post, self.t2@) =~= old(self)@.pass_t1_front().t2);
        }
    }

    /// The sweep over the recency queue.
    fn replace_t1(&mut self)
        requires
            old(self).structure(),
            old(self)@.counts_ok(),
        ensures
            final(self).structure(),
            final(self)@.counts_ok(),
            final(self)@ == old(self)@.replace_t1(),
            final(self).ghosts_kept(old(self)),
            final(self)@.resident_len() == old(self)@.resident_len(),
            final(self)@.b1 == old(self)@.b1,
            final(self)@.b2 == old(self)@.b2,
            final(self)@.same_totals(old(self)@),
            !final(self)@.t1_front_passed(),
    {
        while self.t1_front_passed()
            invariant
                self.structure(),
                self@.counts_ok(),
                self@.replace_t1() == old(self)@.replace_t1(),
                self.ghosts_kept(old(self)),
                self@.resident_len() == old(self)@.resident_len(),
                self@.b1 == old(self)@.b1,
                self@.b2 == old(self)@.b2,
                self@.same_totals(old(self)@),
            decreases self@.t1_work(),
        {
            proof {
                self@.lemma_pass_t1_front();
                self@.lemma_pass_t1_front_decreases();
            }
            self.pass_t1_front();
        }
    }

    /// The eviction of one resident entry into history.
    fn demote(&mut self)
        requires
            old(self).structure(),
            old(self)@.counts_ok(),
            old(self)@.ghost_len() <= old(self)@.c(),
            !old(self)@.t1_front_passed(),
        ensures
            final(self).structure(),
            final(self)@.counts_ok(),
            final(self)@ == old(self)@.demote(),
            final(self).ghosts_kept(old(self)),
    {
        let ghost pre = self.arena@;
        let ghost t1 = self.t1@;
        let ghost t2 = self.t2@;
        let ghost b1 = self.b1@;
        let ghost b2 = self.b2@;
        proof {
            self.arena.lemma_bounds();
            self@.lemma_demote();
        }
        let floor = if self.p >= 1 {
            self.p
        } else {
            1
        };
        let from_t1 = self.t1.len() >= floor;
        let front = if from_t1 {
            self.t1.pop_front()
        } else {
            self.t2.pop_front()
        };
        if let Some(token) = front {
            proof {
                let queue = if from_t1 {
                    t1
                } else {
                    t2
                };
                assert(pre.contains_key(queue[0]));
                lemma_drop_first_contains(queue);
                assert(lines(pre, queue)[0].longterm == !from_t1);
                assert(!b1.contains(token) && !b2.contains(token)) by {
                    if b1.contains(token) {
                        let i = choose|i: int| 0 <= i < b1.len() && b1[i] == token;
                        assert(pre[b1[i]].node.is_history);
                    }
                    if b2.contains(token) {
                        let i = choose|i: int| 0 <= i < b2.len() && b2[i] == token;
                        assert(pre[b2[i]].node.is_history);
                    }
                }
            }
            let mut node = self.arena.node(token);
            node.is_history = true;
            if from_t1 {
                self.shortterm_count -= 1;
            } else {
                self.longterm_count -= 1;
            }
            self.arena.set_node(token, node);
            let ghost mid = self.arena@;
            proof {
                self.b1.lemma_frame(pre, mid);
                self.b2.lemma_frame(pre, mid);
            }
            if from_t1 {
                self.b1.push_back(&mut self.arena, token);
            } else {
                self.b2.push_back(&mut self.arena, token);
            }
            proof {
                let post = self.arena@;
                let (hist, other, s) = if from_t1 {
                    (self.b1, self.b2, b1)
                } else {
                    (self.b2, self.b1, b2)
                };
                lemma_push_contains(s, token);
                assert(mid.dom() =~= pre.dom());
                assert forall|i: int| 0 <= i < hist@.len() implies mid.contains_key(
                    #[trigger] hist@[i],
                ) && mid[hist@[i]].node.is_history && mid[hist@[i]].node.is_longterm
                    == !from_t1 by {
                    if i < s.len() {
                        assert(pre.contains_key(s[i]));
                    }
                }
                assert forall|i: int| 0 <= i < other@.len() implies mid.contains_key(
                    #[trigger] other@[i],
                ) && mid[other@[i]].node.is_history && mid[other@[i]].node.is_longterm
                    == from_t1 by {
                    assert(pre.contains_key(other@[i]));
                }
                assert forall|i: int| 0 <= i < self.t1@.len() implies mid.contains_key(
                    #[trigger] self.t1@[i],
                ) && !mid[self.t1@[i]].node.is_history by {
                    assert(t1.contains(self.t1@[i]));
                    let j = choose|j: int| 0 <= j < t1.len() && t1[j] == self.t1@[i];
                    assert(pre.contains_key(t1[j]));
                }
                assert forall|i: int| 0 <= i < self.t2@.len() implies mid.contains_key(
                    #[trigger] self.t2@[i],
                ) && !mid[self.t2@[i]].node.is_history by {
                    assert(t2.contains(self.t2@[i]));
                    let j = choose|j: int| 0 <= j < t2.len() && t2[j] == self.t2@[i];
                    assert(pre.contains_key(t2[j]));
                }
                Self::lemma_untouched(mid, post, hist@, other@, self.t1@, self.t2@, !from_t1);
                other.lemma_frame(mid, post);
                assert forall|t: usize| #[trigger]
                    pre.contains_key(t) && t != token && !pre[t].node.is_history implies post[t]
                    == pre[t] by {
                    if hist@.contains(t) {
                        let j = choose|j: int| 0 <= j < s.len() && s[j] == t;
                        assert(pre[s[j]].node.is_history);
                    }
                    assert(mid.contains_key(t));
                }
                lemma_consistent_moved(
                    pre,
                    post,
                    self.map@,
                    (t1, t2, b1, b2),
                    (self.t1@, self.t2@, self.b1@, self.b2@),
                    token,
                );
                assert(ghost_keys(post, self.b1@) =~= old(self)@.demote().b1);
                assert(ghost_keys(post, self.b2@) =~= old(self)@.demote().b2);
                assert(lines(post, self.t1@) =~= old(self)@.demote().t1);
                assert(lines(post, self.t2@) =~= old(self)@.demote().t2);
            }
        }
    }

    /// The replacement: both sweeps, then the eviction of the victim.
    fn replace(&mut self)
        requires
            old(self).structure(),
            old(self)@.counts_ok(),
            old(self)@.ghost_len() <= old(self)@.c(),
        ensures
            final(self).structure(),
            final(self)@.counts_ok(),
            final(self)@ == old(self)@.replace(),
            final(self)@.same_totals(old(self)@),
            final(self).ghosts_kept(old(self)),
            final(self)@.ghost_len() <= old(self)@.ghost_len() + 1,
            final(self)@.len() == old(self)@.len(),
            old(self)@.resident_len() >= old(self)@.c() ==> final(self)@.resident_len()
                < old(self)@.resident_limit(),
    {
        self.replace_t2();
        self.replace_t1();
        proof {
            self@.lemma_demote();
        }
        self.demote();
    }

    /// One ghost is forgotten: its entry leaves the arena and the index.
    fn trim(&mut self)
        requires
            old(self).structure(),
            old(self)@.counts_ok(),
            old(self)@.ghost_len() >= 1,
        ensures
            final(self).structure(),
            final(self)@.counts_ok(),
            final(self)@ == old(self)@.trim(),
            forall|k: K| final(self).map@.contains_key(k) ==> old(self).map@.contains_key(k),
    {
        let ghost pre = self.arena@;
        let ghost t1 = self.t1@;
        let ghost t2 = self.t2@;
        let ghost b1 = self.b1@;
        let ghost b2 = self.b2@;
        proof {
            self.arena.lemma_bounds();
            self@.lemma_trim();
        }
        let from_b1 = self.b1.len() > self.q || self.b2.is_empty();
        let front = if from_b1 {
            self.b1.pop_front(&mut self.arena)
        } else {
            self.b2.pop_front(&mut self.arena)
        };
        if let Some(token) = front {
            let ghost mid = self.arena@;
            let item = self.arena.remove(token);
            self.map.remove(&item.key);
            proof {
                let post = self.arena@;
                let (hist, other, s) = if from_b1 {
                    (self.b1, self.b2, b1)
                } else {
                    (self.b2, self.b1, b2)
                };
                assert(pre.contains_key(s[0]));
                lemma_drop_first_contains(s);
                Self::lemma_untouched(pre, mid, s, other@, t1, t2, !from_b1);
                hist.lemma_frame(mid, post);
                other.lemma_frame(pre, post);
                lemma_consistent_removed(
                    pre,
                    post,
                    old(self).map@,
                    (t1, t2, b1, b2),
                    (t1, t2, self.b1@, self.b2@),
                    token,
                );
                assert(self.map@.dom() =~= old(self).map@.dom().remove(item.key));
                assert(ghost_keys(post, self.b1@) =~= old(self)@.trim().b1);
                assert(ghost_keys(post, self.b2@) =~= old(self)@.trim().b2);
                assert(lines(post, self.t1@) =~= old(self)@.trim().t1);
                assert(lines(post, self.t2@) =~= old(self)@.trim().t2);
            }
        }
    }

    /// Relinking the history `s` leaves the entries of the other history
    /// `other` and of the queues as they are.
    proof fn lemma_untouched(
        pre: Map<usize, Entry<K, V>>,
        post: Map<usize, Entry<K, V>>,
        s: Seq<usize>,
        other: Seq<usize>,
        t1: Seq<usize>,
        t2: Seq<usize>,
        longterm: bool,
    )
        requires
            relinked(pre, post, s),
            all_live(pre, s, true),
            all_live(pre, other, true),
            all_live(pre, t1, false),
            all_live(pre, t2, false),
            all_longterm(pre, s, longterm),
            all_longterm(pre, other, !longterm),
        ensures
            forall|i: int| 0 <= i < other.len() ==> post[#[trigger] other[i]] == pre[other[i]],
            forall|i: int| 0 <= i < t1.len() ==> post[#[trigger] t1[i]] == pre[t1[i]],
            forall|i: int| 0 <= i < t2.len() ==> post[#[trigger] t2[i]] == pre[t2[i]],
    {
        assert forall|i: int| 0 <= i < other.len() implies post[#[trigger] other[i]]
            == pre[other[i]] by {
            let t = other[i];
            assert(pre.contains_key(t));
            if s.contains(t) {
                let j = choose|j: int| 0 <= j < s.len() && s[j] == t;
                assert(pre[s[j]].node.is_longterm == longterm);
            }
        }
        assert forall|i: int| 0 <= i < t1.len() implies post[#[trigger] t1[i]] == pre[t1[i]] by {
            let t = t1[i];
            assert(pre.contains_key(t));
            if s.contains(t) {
                let j = choose|j: int| 0 <= j < s.len() && s[j] == t;
                assert(pre[s[j]].node.is_history);
            }
        }
        assert forall|i: int| 0 <= i < t2.len() implies post[#[trigger] t2[i]] == pre[t2[i]] by {
            let t = t2[i];
            assert(pre.contains_key(t));
            if s.contains(t) {
                let j = choose|j: int| 0 <= j < s.len() && s[j] == t;
                assert(pre[s[j]].node.is_history);
            }
        }
    }

    /// Room is made for one more resident entry, where there is none.
    fn evict_if_full(&mut self, is_history: bool)
        requires
            old(self).wf(),
            old(self)@.evicted < u64::MAX,
        ensures
            final(self).structure(),
            final(self)@.counts_ok(),
            final(self)@ == old(self)@.evict_if_full(is_history),
            final(self)@.resident_len() < final(self)@.resident_limit(),
            final(self)@.ghost_len() <= final(self)@.c() + if is_history {
                1nat
            } else {
                0nat
            },
            final(self)@.inserted == old(self)@.inserted,
            is_history ==> final(self).ghosts_kept(old(self)),
            forall|k: K| final(self).map@.contains_key(k) ==> old(self).map@.contains_key(k),
    {
        proof {
            self.arena.lemma_bounds();
        }
        if self.t1.len() + self.t2.len() >= self.c {
            self.replace();
            proof {
                self.arena.lemma_bounds();
            }
            if is_history == false && self.b1.len() + self.b2.len() >= self.c + 1 {
                proof {
                    self@.lemma_trim();
                }
                self.trim();
            }
            self.evicted += 1;
        }
    }

    /// A key that is new to the cache gets an entry at the tail of the
    /// recency queue.
    fn insert_new_entry(&mut self, key: K, value: V) where K: Clone
        requires
            old(self).structure(),
            old(self)@.counts_ok(),
            old(self)@.resident_len() < old(self)@.resident_limit(),
            old(self)@.ghost_len() <= old(self)@.c(),
            old(self)@.inserted < u64::MAX,
            !old(self).map@.contains_key(key),
            clones_equal::<K>(),
        ensures
            final(self).structure(),
            final(self)@.counts_ok(),
            final(self)@ == old(self)@.insert_new(key, value),
    {
        let ghost pre = self.arena@;
        let ghost t1 = self.t1@;
        proof {
            self.arena.lemma_bounds();
            self@.lemma_insert_new(key, value);
        }
        let node = Node {
            prev: None,
            next: None,
            is_history: false,
            is_reference: false,
            is_longterm: false,
        };
        let index_key = key.clone();
        assert(cloned(key, index_key));
        match self.arena.insert(key, value, node) {
            Some(token) => {
                self.t1.push_back(token);
                self.shortterm_count += 1;
                self.map.insert(index_key, token);
                self.inserted += 1;
                proof {
                    let post = self.arena@;
                    lemma_consistent_added(
                        pre,
                        old(self).map@,
                        t1,
                        self.t2@,
                        self.b1@,
                        self.b2@,
                        token,
                        Entry { key, value, node },
                    );
                    self.b1.lemma_frame(pre, post);
                    self.b2.lemma_frame(pre, post);
                    assert(self.map@.dom() =~= old(self).map@.dom().insert(key));
                    assert(ghost_keys(post, self.b1@) =~= ghost_keys(pre, self.b1@));
                    assert(ghost_keys(post, self.b2@) =~= ghost_keys(pre, self.b2@));
                    assert(lines(post, self.t1@) =~= old(self)@.insert_new(key, value).t1);
                    assert(lines(post, self.t2@) =~= lines(pre, self.t2@));
                }
            },
            None => {
                assert(false);
            },
        }
    }

    /// A ghost becomes resident again: its entry leaves its history, the
    /// frequency history where `frequent` and the recency history else, and
    /// joins the tail of the recency queue with the new value and the
    /// frequency bit.
    fn revive(&mut self, token: usize, key: K, value: V, frequent: bool)
        requires
            old(self).structure(),
            old(self).longterm_count < usize::MAX,
            old(self).arena@[token].key == key,
            if frequent {
                old(self).b2@.contains(token)
            } else {
                old(self).b1@.contains(token)
            },
        ensures
            final(self).structure(),
            final(self)@ == old(self)@.revive(key, value, frequent),
    {
        let ghost pre = self.arena@;
        let ghost t1 = self.t1@;
        let ghost t2 = self.t2@;
        let ghost b1 = self.b1@;
        let ghost b2 = self.b2@;
        let ghost s = if frequent {
            b2
        } else {
            b1
        };
        let ghost i = s.index_of(token);
        proof {
            self.arena.lemma_bounds();
            assert(pre.contains_key(s[i]));
            lemma_key_index(pre, self.map@, t1, t2, b1, b2, key);
        }
        let mut node = self.arena.node(token);
        node.is_history = false;
        node.is_reference = false;
        node.is_longterm = true;
        self.longterm_count += 1;
        self.arena.set_node(token, node);
        let ghost mid = self.arena@;
        proof {
            self.b1.lemma_frame(pre, mid);
            self.b2.lemma_frame(pre, mid);
        }
        if frequent {
            self.b2.remove(&mut self.arena, token);
        } else {
            self.b1.remove(&mut self.arena, token);
        }
        let ghost unlinked = self.arena@;
        self.arena.set_item(token, key, value);
        self.t1.push_back(token);
        proof {
            let post = self.arena@;
            let (hist, other) = if frequent {
                (self.b2, self.b1)
            } else {
                (self.b1, self.b2)
            };
            lemma_remove_contains(s, i);
            lemma_push_contains(t1, token);
            assert(!t1.contains(token) && !t2.contains(token)) by {
                if t1.contains(token) {
                    let a = choose|a: int| 0 <= a < t1.len() && t1[a] == token;
                    assert(!pre[t1[a]].node.is_history);
                }
                if t2.contains(token) {
                    let a = choose|a: int| 0 <= a < t2.len() && t2[a] == token;
                    assert(!pre[t2[a]].node.is_history);
                }
            }
            assert(mid.dom() =~= pre.dom());
            assert(post.dom() =~= pre.dom());
            assert forall|t: usize| #[trigger] pre.contains_key(t) && !s.contains(t) implies post[t]
                == pre[t] by {
                assert(mid.contains_key(t));
            }
            assert forall|j: int| 0 <= j < other@.len() implies post[#[trigger] other@[j]]
                == pre[other@[j]] by {
                let t = other@[j];
                assert(pre.contains_key(t));
                if s.contains(t) {
                    let a = choose|a: int| 0 <= a < s.len() && s[a] == t;
                    assert(pre[s[a]].node.is_longterm == frequent);
                }
            }
            assert forall|t: usize| #[trigger]
                pre.contains_key(t) && t != token && !pre[t].node.is_history implies post[t]
                == pre[t] by {
                if s.contains(t) {
                    let a = choose|a: int| 0 <= a < s.len() && s[a] == t;
                    assert(pre[s[a]].node.is_history);
                }
            }
            hist.lemma_frame(unlinked, post);
            other.lemma_frame(pre, post);
            lemma_consistent_moved(
                pre,
                post,
                self.map@,
                (t1, t2, b1, b2),
                (self.t1@, self.t2@, self.b1@, self.b2@),
                token,
            );
            s.remove_ensures(i);
            ghost_keys(pre, s).remove_ensures(i);
            assert(ghost_keys(post, self.b1@) =~= old(self)@.revive(key, value, frequent).b1);
            assert(ghost_keys(post, self.b2@) =~= old(self)@.revive(key, value, frequent).b2);
            assert(lines(post, self.t1@) =~= old(self)@.revive(key, value, frequent).t1);
            assert(lines(post, self.t2@) =~= lines(pre, t2));
        }
    }

    /// A ghost of the recency history becomes resident again.
    fn promote_from_b1(&mut self, token: usize, key: K, value: V)
        requires
            old(self).structure(),
            old(self)@.counts_ok(),
            old(self)@.resident_len() < old(self)@.resident_limit(),
            old(self).b1@.contains(token),
            old(self).arena@[token].key == key,
        ensures
            final(self).structure(),
            final(self)@.counts_ok(),
            final(self)@ == old(self)@.promote_from_b1(key, value),
            final(self)@.ghost_len() == old(self)@.ghost_len() - 1,
    {
        proof {
            self.arena.lemma_bounds();
            lemma_key_index(
                self.arena@,
                self.map@,
                self.t1@,
                self.t2@,
                self.b1@,
                self.b2@,
                key,
            );
            self@.lemma_promote_from_b1(key, value);
        }
        let ratio = self.shortterm_count / self.b1.len();
        let step = if ratio >= 1 {
            ratio
        } else {
            1
        };
        self.p = if self.p + step <= self.c {
            self.p + step
        } else {
            self.c
        };
        self.revive(token, key, value, false);
    }

    /// A ghost of the frequency history becomes resident again.
    fn promote_from_b2(&mut self, token: usize, key: K, value: V)
        requires
            old(self).structure(),
            old(self)@.counts_ok(),
            old(self)@.resident_len() < old(self)@.resident_limit(),
            old(self).b2@.contains(token),
            old(self).arena@[token].key == key,
        ensures
            final(self).structure(),
            final(self)@.counts_ok(),
            final(self)@ == old(self)@.promote_from_b2(key, value),
            final(self)@.ghost_len() == old(self)@.ghost_len() - 1,
    {
        proof {
            self.arena.lemma_bounds();
            lemma_key_index(
                self.arena@,
                self.map@,
                self.t1@,
                self.t2@,
                self.b1@,
                self.b2@,
                key,
            );
            self@.lemma_promote_from_b2(key, value);
        }
        let ratio = self.longterm_count / self.b2.len();
        let step = if ratio >= 1 {
            ratio
        } else {
            1
        };
        self.p = if self.p > step {
            self.p - step
        } else {
            0
        };
        self.revive(token, key, value, true);
        proof {
            self.arena.lemma_bounds();
        }
        if self.t2.len() + self.b2.len() + self.t1.len() - self.shortterm_count >= self.c {
            let room = self.capacity - self.t1.len();
            self.q = if self.q + 1 <= room {
                self.q + 1
            } else {
                room
            };
        }
    }

    /// Caches `value` under `key`. Where `key` is resident, its value is
    /// replaced in place and its clock bit set, and the result is `true`.
    /// Else room is made where there is none, and `key` becomes resident at
    /// the tail of the recency queue: as a new entry, or, where it was a
    /// ghost, with the frequency bit and an adapted `p`; the result is
    /// `false`.
    pub fn insert(&mut self, key: K, value: V) -> (hit: bool) where K: Clone
        requires
            old(self).wf(),
            old(self)@.inserted < u64::MAX,
            old(self)@.evicted < u64::MAX,
            clones_equal::<K>(),
        ensures
            final(self).wf(),
            final(self)@ == old(self)@.insert(key, value),
            hit == old(self)@.is_resident(key),
    {
        proof {
            lemma_key_index(self.arena@, self.map@, self.t1@, self.t2@, self.b1@, self.b2@, key);
        }
        let found = match self.map.get(&key) {
            Some(t) => Some(*t),
            None => None,
        };
        match found {
            Some(token) => {
                let mut node = self.arena.node(token);
                if !node.is_history {
                    node.is_reference = true;
                    self.arena.set_node(token, node);
                    self.arena.set_item(token, key, value);
                    proof {
                        let pre = old(self).arena@;
                        let post = self.arena@;
                        assert(post.dom() =~= pre.dom());
                        lemma_consistent_update(
                            pre,
                            post,
                            self.map@,
                            self.t1@,
                            self.t2@,
                            self.b1@,
                            self.b2@,
                        );
                        self.b1.lemma_frame(pre, post);
                        self.b2.lemma_frame(pre, post);
                        assert(lines(post, self.t1@) =~= stored(lines(pre, self.t1@), key, value))
                            by {
                            assert forall|i: int| 0 <= i < self.t1@.len() implies lines(
                                post,
                                self.t1@,
                            )[i] == stored(lines(pre, self.t1@), key, value)[i] by {
                                assert(pre.contains_key(self.t1@[i]));
                            }
                        }
                        assert(lines(post, self.t2@) =~= stored(lines(pre, self.t2@), key, value))
                            by {
                            assert forall|i: int| 0 <= i < self.t2@.len() implies lines(
                                post,
                                self.t2@,
                            )[i] == stored(lines(pre, self.t2@), key, value)[i] by {
                                assert(pre.contains_key(self.t2@[i]));
                            }
                        }
                        old(self)@.lemma_store_counts(key, value);
                    }
                    return true;
                }
                self.evict_if_full(true);
                proof {
                    lemma_key_index(
                        self.arena@,
                        self.map@,
                        self.t1@,
                        self.t2@,
                        self.b1@,
                        self.b2@,
                        key,
                    );
                }
                if !node.is_longterm {
                    self.promote_from_b1(token, key, value);
                } else {
                    self.promote_from_b2(token, key, value);
                }
            },
            None => {
                self.evict_if_full(false);
                self.insert_new_entry(key, value);
            },
        }
        false
    }

    /// Looks `key` up for a change of its value. A resident entry is
    /// touched, and its value is returned; what the caller leaves there is
    /// the value from then on. A key that is absent or a ghost has no value,
    /// and nothing changes.
    pub fn get_mut(&mut self, key: &K) -> (r: Option<&mut V>)
        requires
            old(self).wf(),
        ensures
            final(self).wf(),
            match r {
                Some(v) => old(self)@.lookup(*key) == Some(*v) && final(self)@ == old(self)@.store(
                    *key,
                    *final(v),
                ),
                None => old(self)@.lookup(*key) is None && final(self)@ == old(self)@,
            },
    {
        proof {
            lemma_key_index(self.arena@, self.map@, self.t1@, self.t2@, self.b1@, self.b2@, *key);
        }
        let token = match self.map.get(key) {
            Some(t) => *t,
            None => {
                return None;
            },
        };
        let mut node = self.arena.node(token);
        if node.is_history {
            return None;
        }
        node.is_reference = true;
        self.arena.set_node(token, node);
        let ghost pre = old(self).arena@;
        let ghost mid = self.arena@;
        let value = self.arena.value_mut(token);
        proof {
            let post = mid.insert(
                token,
                Entry { key: mid[token].key, value: *final(value), node: mid[token].node },
            );
            assert(post.dom() =~= pre.dom());
            lemma_consistent_update(pre, post, self.map@, self.t1@, self.t2@, self.b1@, self.b2@);
            self.b1.lemma_frame(pre, post);
            self.b2.lemma_frame(pre, post);
            assert(lines(post, self.t1@) =~= stored(lines(pre, self.t1@), *key, *final(value))) by {
                assert forall|i: int| 0 <= i < self.t1@.len() implies lines(post, self.t1@)[i]
                    == stored(lines(pre, self.t1@), *key, *final(value))[i] by {
                    assert(pre.contains_key(self.t1@[i]));
                }
            }
            assert(lines(post, self.t2@) =~= stored(lines(pre, self.t2@), *key, *final(value))) by {
                assert forall|i: int| 0 <= i < self.t2@.len() implies lines(post, self.t2@)[i]
                    == stored(lines(pre, self.t2@), *key, *final(value))[i] by {
                    assert(pre.contains_key(self.t2@[i]));
                }
            }
            old(self)@.lemma_store_counts(*key, *final(value));
        }
        Some(value)
    }

    /// Forgets every entry and resets the adaptive parameters and the
    /// counters: the cache is as it was when it was made.
    pub fn clear(&mut self)
        requires
            old(self).wf(),
        ensures
            final(self).wf(),
            final(self)@ == Cart::<K, V>::fresh(old(self)@.capacity),
    {
        self.arena.clear();
        self.map.clear();
        self.t1.clear();
        self.t2.clear();
        self.b1.clear();
        self.b2.clear();
        self.p = 0;
        self.q = 0;
        self.shortterm_count = 0;
        self.longterm_count = 0;
        self.inserted = 0;
        self.evicted = 0;
        proof {
            assert(self@.t1 =~= Seq::empty());
            assert(self@.t2 =~= Seq::empty());
            assert(self@.b1 =~= Seq::empty());
            assert(self@.b2 =~= Seq::empty());
            assert(self.map@.dom() =~= Set::empty());
            assert(self.arena@.dom() =~= Set::empty());
        }
    }

    /// A well-formed cache meets the invariants of the policy: its counts
    /// and parameters are in their bounds, and no key has two entries.
    pub proof fn lemma_invariants(&self)
        requires
            self.wf(),
        ensures
            self@.inv(),
    {
        let arena = self.arena@;
        let t1 = self.t1@;
        let t2 = self.t2@;
        let b1 = self.b1@;
        let b2 = self.b2@;
        let s = self@;
        assert forall|i: int, j: int|
            0 <= i < keys(s.t1).len() && 0 <= j < keys(s.t1).len() && i != j implies keys(s.t1)[i]
            != keys(s.t1)[j] by {
            assert(arena.contains_key(t1[i]) && arena.contains_key(t1[j]));
        }
        assert forall|i: int, j: int|
            0 <= i < keys(s.t2).len() && 0 <= j < keys(s.t2).len() && i != j implies keys(s.t2)[i]
            != keys(s.t2)[j] by {
            assert(arena.contains_key(t2[i]) && arena.contains_key(t2[j]));
        }
        assert forall|i: int, j: int|
            0 <= i < s.b1.len() && 0 <= j < s.b1.len() && i != j implies s.b1[i] != s.b1[j] by {
            assert(arena.contains_key(b1[i]) && arena.contains_key(b1[j]));
        }
        assert forall|i: int, j: int|
            0 <= i < s.b2.len() && 0 <= j < s.b2.len() && i != j implies s.b2[i] != s.b2[j] by {
            assert(arena.contains_key(b2[i]) && arena.contains_key(b2[j]));
        }
        assert forall|k: K| #[trigger] s.places(k) <= 1 by {
            lemma_key_index(arena, self.map@, t1, t2, b1, b2, k);
            if self.map@.contains_key(k) {
                let t = self.map@[k];
                if t1.contains(t) && t2.contains(t) {
                    let i = choose|i: int| 0 <= i < t1.len() && t1[i] == t;
                    let j = choose|j: int| 0 <= j < t2.len() && t2[j] == t;
                    assert(t1[i] == t2[j]);
                }
            }
        }
    }

    /// The entries of the cache, by handle.
    pub closed spec fn entries(&self) -> Map<usize, Entry<K, V>> {
        self.arena@
    }

    /// The key index: the handle of every key that has an entry.
    pub closed spec fn index(&self) -> Map<K, usize> {
        self.map@
    }

    /// The handles of the recency queue, oldest first.
    pub closed spec fn recency_queue(&self) -> Seq<usize> {
        self.t1@
    }

    /// The handles of the frequency queue, oldest first.
    pub closed spec fn frequency_queue(&self) -> Seq<usize> {
        self.t2@
    }

    /// The handles of the recency history, oldest first.
    pub closed spec fn recency_history(&self) -> Seq<usize> {
        self.b1@
    }

    /// The handles of the frequency history, oldest first.
    pub closed spec fn frequency_history(&self) -> Seq<usize> {
        self.b2@
    }

    /// In a well-formed cache the arena, the index, the queues and the
    /// histories fit together. Every live handle is the index target of
    /// its key and of no other, and is in exactly one of the two queues and
    /// two histories, once; a resident entry is no ghost and has no links,
    /// the entries of each history are linked in its order, and the state of
    /// the cache is what the entries of the four sequences hold.
    pub proof fn lemma_handles(&self, t: usize)
        requires
            self.wf(),
        ensures
            consistent(
                self.entries(),
                self.index(),
                self.recency_queue(),
                self.frequency_queue(),
                self.recency_history(),
                self.frequency_history(),
            ),
            handle_places(
                self.recency_queue(),
                self.frequency_queue(),
                self.recency_history(),
                self.frequency_history(),
                t,
            ) == if self.entries().contains_key(t) {
                1nat
            } else {
                0nat
            },
            forall|i: int|
                0 <= i < self.recency_history().len() ==> #[trigger] crate::list::linked_at(
                    self.recency_history(),
                    self.entries(),
                    i,
                ),
            forall|i: int|
                0 <= i < self.frequency_history().len() ==> #[trigger] crate::list::linked_at(
                    self.frequency_history(),
                    self.entries(),
                    i,
                ),
            self@.t1 == lines(self.entries(), self.recency_queue()),
            self@.t2 == lines(self.entries(), self.frequency_queue()),
            self@.b1 == ghost_keys(self.entries(), self.recency_history()),
            self@.b2 == ghost_keys(self.entries(), self.frequency_history()),
            self.entries().dom().finite(),
            self.entries().dom().len() == self@.len(),
            self.index().dom().finite(),
            self.index().dom().len() == self@.len(),
    {
        lemma_handle_places(self.arena@, self.map@, self.t1@, self.t2@, self.b1@, self.b2@, t);
        self.arena.lemma_bounds();
    }
}

} // verus!
