//! What holds of the policy whatever the keys, the values and the order of
//! the operations.

use crate::model::{count_short, find, keys, lemma_count_short_bound, stored, touched, Cart, Line};
use crate::seqs::{lemma_drop_first_contains, lemma_push_contains, lemma_remove_contains};
use vstd::prelude::*;

verus! {

/// The resident entries never outnumber half the capacity, in a cache with
/// room for at least two entries. (A cache with room for one entry keeps
/// that one resident.)
pub proof fn lemma_bounded_residency<K, V>(s: Cart<K, V>)
    requires
        s.inv(),
        s.capacity >= 2,
    ensures
        s.t1.len() + s.t2.len() <= s.capacity / 2,
{
}

/// The entries, resident and ghost, never outnumber the capacity, and the
/// ghosts never outnumber half of it.
pub proof fn lemma_bounded_directory<K, V>(s: Cart<K, V>)
    requires
        s.inv(),
    ensures
        s.t1.len() + s.t2.len() + s.b1.len() + s.b2.len() <= s.capacity,
        s.b1.len() + s.b2.len() <= s.capacity / 2,
{
}

/// The counters and parameters stay in step with the queues: the short-term
/// count is the number of resident lines without the frequency bit, all of
/// them in the recency queue, the long-term count is the number of the
/// others, and `p` is at most half the capacity.
pub proof fn lemma_counts<K, V>(s: Cart<K, V>)
    requires
        s.inv(),
    ensures
        s.shortterm_count == count_short(s.t1),
        s.shortterm_count <= s.t1.len(),
        count_short(s.t2) == 0,
        s.longterm_count == s.t1.len() + s.t2.len() - s.shortterm_count,
        s.p <= s.capacity / 2,
        s.q < s.capacity,
{
    lemma_count_short_bound(s.t1);
    lemma_longterm_queue(s.t2);
}

/// A queue of lines that all have the frequency bit counts no short-term
/// line.
pub proof fn lemma_longterm_queue<K, V>(s: Seq<Line<K, V>>)
    requires
        forall|i: int| 0 <= i < s.len() ==> (#[trigger] s[i]).longterm,
    ensures
        count_short(s) == 0,
    decreases s.len(),
{
    if s.len() > 0 {
        assert(s.last().longterm);
        lemma_longterm_queue(s.drop_last());
    }
}

/// A key with an entry is in exactly one of the two queues and two
/// histories, and a lookup finds a value for it exactly if that is a queue.
pub proof fn lemma_index_consistency<K, V>(s: Cart<K, V>, k: K)
    requires
        s.inv(),
    ensures
        s.contains_key(k) <==> s.places(k) == 1,
        s.lookup(k) is Some <==> s.is_resident(k),
        s.is_resident(k) ==> !s.is_ghost(k),
{
    assert(s.places(k) <= 1);
}

/// After an insertion every key with an entry is in exactly one of the two
/// queues and two histories, and a lookup finds a value for it exactly if
/// that is a queue.
pub proof fn lemma_insert_index_consistency<K, V>(s: Cart<K, V>, k: K, v: V, x: K)
    requires
        s.inv(),
    ensures
        s.insert(k, v).contains_key(x) <==> s.insert(k, v).places(x) == 1,
        s.insert(k, v).lookup(x) is Some <==> s.insert(k, v).is_resident(x),
        s.insert(k, v).contains_key(k),
{
    lemma_insert_inv(s, k, v);
    lemma_index_consistency(s.insert(k, v), x);
    if s.is_resident(k) {
        assert(keys(stored(s.t1, k, v)) =~= keys(s.t1));
        assert(keys(stored(s.t2, k, v)) =~= keys(s.t2));
    } else {
        let is_history = s.b1.contains(k) || s.b2.contains(k);
        let e = s.evict_if_full(is_history);
        let l = s.insert(k, v).t1.last();
        lemma_keys_of_push(e.t1, l);
        lemma_push_contains(keys(e.t1), k);
    }
}

/// A lookup changes no value and moves no entry: a second lookup of the
/// same key finds what the first found and changes nothing more.
pub proof fn lemma_hit_stability<K, V>(s: Cart<K, V>, k: K)
    ensures
        s.touch(k).lookup(k) == s.lookup(k),
        s.touch(k).touch(k) == s.touch(k),
        keys(s.touch(k).t1) == keys(s.t1),
        keys(s.touch(k).t2) == keys(s.t2),
        s.touch(k).b1 == s.b1,
        s.touch(k).b2 == s.b2,
        s.touch(k).is_resident(k) == s.is_resident(k),
{
    assert(keys(touched(s.t1, k)) =~= keys(s.t1));
    assert(keys(touched(s.t2, k)) =~= keys(s.t2));
    assert(touched(touched(s.t1, k), k) =~= touched(s.t1, k));
    assert(touched(touched(s.t2, k), k) =~= touched(s.t2, k));
}

/// Inserting a resident key replaces its value in place: no entry comes,
/// goes or moves, nothing is replaced, and no counter or parameter changes.
pub proof fn lemma_update_in_place<K, V>(s: Cart<K, V>, k: K, v: V)
    requires
        s.is_resident(k),
    ensures
        s.insert(k, v).len() == s.len(),
        s.insert(k, v).evicted == s.evicted,
        s.insert(k, v).inserted == s.inserted,
        keys(s.insert(k, v).t1) == keys(s.t1),
        keys(s.insert(k, v).t2) == keys(s.t2),
        s.insert(k, v).b1 == s.b1,
        s.insert(k, v).b2 == s.b2,
        s.insert(k, v).p == s.p,
        s.insert(k, v).q == s.q,
        s.insert(k, v).shortterm_count == s.shortterm_count,
        s.insert(k, v).longterm_count == s.longterm_count,
        s.insert(k, v).lookup(k) == Some(v),
        forall|i: int|
            0 <= i < s.t1.len() ==> (#[trigger] s.insert(k, v).t1[i]) == if s.t1[i].key == k {
                Line { key: k, value: v, reference: true, longterm: s.t1[i].longterm }
            } else {
                s.t1[i]
            },
        forall|i: int|
            0 <= i < s.t2.len() ==> (#[trigger] s.insert(k, v).t2[i]) == if s.t2[i].key == k {
                Line { key: k, value: v, reference: true, longterm: s.t2[i].longterm }
            } else {
                s.t2[i]
            },
{
    assert(keys(stored(s.t1, k, v)) =~= keys(s.t1));
    assert(keys(stored(s.t2, k, v)) =~= keys(s.t2));
}

/// The keys of a queue after a push.
pub proof fn lemma_keys_of_push<K, V>(s: Seq<Line<K, V>>, l: Line<K, V>)
    ensures
        keys(s.push(l)) == keys(s).push(l.key),
{
    assert(keys(s.push(l)) =~= keys(s).push(l.key));
}

/// The keys of a queue without its front.
pub proof fn lemma_keys_of_drop_first<K, V>(s: Seq<Line<K, V>>)
    requires
        s.len() > 0,
    ensures
        keys(s.drop_first()) == keys(s).drop_first(),
        keys(s)[0] == s[0].key,
{
    assert(keys(s.drop_first()) =~= keys(s).drop_first());
}

/// No key has two entries after the entry of `x` has moved, come or gone,
/// where every other key is where it was.
pub proof fn lemma_keys_moved<K, V>(from: Cart<K, V>, to: Cart<K, V>, x: K)
    requires
        from.keys_distinct(),
        keys(to.t1).no_duplicates(),
        keys(to.t2).no_duplicates(),
        to.b1.no_duplicates(),
        to.b2.no_duplicates(),
        forall|k: K| k != x ==> (#[trigger] keys(to.t1).contains(k) <==> keys(from.t1).contains(k)),
        forall|k: K| k != x ==> (#[trigger] keys(to.t2).contains(k) <==> keys(from.t2).contains(k)),
        forall|k: K| k != x ==> (#[trigger] to.b1.contains(k) <==> from.b1.contains(k)),
        forall|k: K| k != x ==> (#[trigger] to.b2.contains(k) <==> from.b2.contains(k)),
        to.places(x) <= 1,
    ensures
        to.keys_distinct(),
{
    assert forall|k: K| #[trigger] to.places(k) <= 1 by {
        if k != x {
            assert(from.places(k) <= 1);
        }
    }
}

/// A second chance keeps the keys apart and the resident keys resident.
pub proof fn lemma_second_chance_keys<K, V>(s: Cart<K, V>)
    requires
        s.keys_distinct(),
        s.t2_front_referenced(),
    ensures
        s.second_chance().keys_distinct(),
        forall|k: K| #[trigger] s.second_chance().is_resident(k) == s.is_resident(k),
{
    let n = s.second_chance();
    let x = s.t2[0].key;
    lemma_keys_of_push(s.t1, n.t1.last());
    assert(n.t1 =~= s.t1.push(n.t1.last()));
    lemma_keys_of_drop_first(s.t2);
    lemma_push_contains(keys(s.t1), x);
    lemma_drop_first_contains(keys(s.t2));
    assert(s.places(x) <= 1);
    lemma_keys_moved(s, n, x);
}

/// A step of the sweep over the recency queue keeps the keys apart and the
/// resident keys resident.
pub proof fn lemma_pass_t1_front_keys<K, V>(s: Cart<K, V>)
    requires
        s.keys_distinct(),
        s.t1_front_passed(),
    ensures
        s.pass_t1_front().keys_distinct(),
        forall|k: K| #[trigger] s.pass_t1_front().is_resident(k) == s.is_resident(k),
{
    let n = s.pass_t1_front();
    let x = s.t1[0].key;
    let rest = s.t1.drop_first();
    lemma_keys_of_drop_first(s.t1);
    lemma_drop_first_contains(keys(s.t1));
    assert(s.places(x) <= 1);
    if s.t1[0].reference {
        lemma_keys_of_push(rest, n.t1.last());
        assert(n.t1 =~= rest.push(n.t1.last()));
        lemma_push_contains(keys(rest), x);
    } else {
        lemma_keys_of_push(s.t2, s.t1[0]);
        lemma_push_contains(keys(s.t2), x);
    }
    lemma_keys_moved(s, n, x);
}

/// The sweep over the frequency queue keeps the invariants, the histories
/// and the resident keys.
pub proof fn lemma_replace_t2_inv<K, V>(s: Cart<K, V>)
    requires
        s.counts_ok(),
        s.keys_distinct(),
    ensures
        s.replace_t2().counts_ok(),
        s.replace_t2().keys_distinct(),
        s.replace_t2().resident_len() == s.resident_len(),
        s.replace_t2().b1 == s.b1,
        s.replace_t2().b2 == s.b2,
        s.replace_t2().same_totals(s),
        forall|k: K| #[trigger] s.replace_t2().is_resident(k) == s.is_resident(k),
    decreases s.t2.len(),
{
    if s.t2_front_referenced() {
        let n = s.second_chance();
        s.lemma_second_chance();
        lemma_second_chance_keys(s);
        lemma_replace_t2_inv(n);
        assert forall|k: K| #[trigger] s.replace_t2().is_resident(k) == s.is_resident(k) by {
            assert(n.replace_t2().is_resident(k) == n.is_resident(k));
            assert(n.is_resident(k) == s.is_resident(k));
        }
    }
}

/// The sweep over the recency queue keeps the invariants, the histories
/// and the resident keys, and ends with a front that can be evicted.
pub proof fn lemma_replace_t1_inv<K, V>(s: Cart<K, V>)
    requires
        s.counts_ok(),
        s.keys_distinct(),
    ensures
        s.replace_t1().counts_ok(),
        s.replace_t1().keys_distinct(),
        s.replace_t1().resident_len() == s.resident_len(),
        s.replace_t1().b1 == s.b1,
        s.replace_t1().b2 == s.b2,
        s.replace_t1().same_totals(s),
        !s.replace_t1().t1_front_passed(),
        forall|k: K| #[trigger] s.replace_t1().is_resident(k) == s.is_resident(k),
    decreases s.t1_work(),
{
    if s.t1_front_passed() {
        let n = s.pass_t1_front();
        s.lemma_pass_t1_front();
        s.lemma_pass_t1_front_decreases();
        lemma_pass_t1_front_keys(s);
        lemma_replace_t1_inv(n);
        assert forall|k: K| #[trigger] s.replace_t1().is_resident(k) == s.is_resident(k) by {
            assert(n.replace_t1().is_resident(k) == n.is_resident(k));
            assert(n.is_resident(k) == s.is_resident(k));
        }
    }
}

/// The eviction of a victim keeps the keys apart: the victim's key goes
/// from a queue to the tail of a history, and every other key stays.
pub proof fn lemma_demote_keys<K, V>(s: Cart<K, V>)
    requires
        s.keys_distinct(),
    ensures
        s.demote().keys_distinct(),
        forall|k: K| #[trigger] s.demote().contains_key(k) == s.contains_key(k),
        forall|k: K| #[trigger] s.demote().is_resident(k) ==> s.is_resident(k),
        forall|k: K| s.b1.contains(k) ==> #[trigger] s.demote().b1.contains(k),
        forall|k: K| s.b2.contains(k) ==> #[trigger] s.demote().b2.contains(k),
{
    let d = s.demote();
    if s.demotes_from_t1() {
        let x = s.t1[0].key;
        lemma_keys_of_drop_first(s.t1);
        lemma_drop_first_contains(keys(s.t1));
        lemma_push_contains(s.b1, x);
        assert(s.places(x) <= 1);
        lemma_keys_moved(s, d, x);
    } else if s.t2.len() > 0 {
        let x = s.t2[0].key;
        lemma_keys_of_drop_first(s.t2);
        lemma_drop_first_contains(keys(s.t2));
        lemma_push_contains(s.b2, x);
        assert(s.places(x) <= 1);
        lemma_keys_moved(s, d, x);
    }
}

/// Forgetting a ghost keeps the keys apart and brings no key in.
pub proof fn lemma_trim_keys<K, V>(s: Cart<K, V>)
    requires
        s.keys_distinct(),
        s.ghost_len() >= 1,
    ensures
        s.trim().keys_distinct(),
        forall|k: K| #[trigger] s.trim().contains_key(k) ==> s.contains_key(k),
        forall|k: K| #[trigger] s.trim().is_resident(k) == s.is_resident(k),
{
    let t = s.trim();
    if s.trims_b1() {
        let x = s.b1[0];
        lemma_drop_first_contains(s.b1);
        assert(s.places(x) <= 1);
        lemma_keys_moved(s, t, x);
    } else {
        let x = s.b2[0];
        lemma_drop_first_contains(s.b2);
        assert(s.places(x) <= 1);
        lemma_keys_moved(s, t, x);
    }
}

/// Making room keeps the invariants, leaves room for one resident entry,
/// makes no key resident and brings no key in; with a ghost's key at hand it
/// forgets no ghost.
pub proof fn lemma_evict_inv<K, V>(s: Cart<K, V>, is_history: bool)
    requires
        s.inv(),
    ensures
        s.evict_if_full(is_history).counts_ok(),
        s.evict_if_full(is_history).keys_distinct(),
        s.evict_if_full(is_history).capacity == s.capacity,
        s.evict_if_full(is_history).inserted == s.inserted,
        s.evict_if_full(is_history).resident_len() < s.resident_limit(),
        s.evict_if_full(is_history).ghost_len() <= s.c() + if is_history {
            1nat
        } else {
            0nat
        },
        forall|k: K| #[trigger] s.evict_if_full(is_history).contains_key(k) ==> s.contains_key(k),
        forall|k: K| #[trigger] s.evict_if_full(is_history).is_resident(k) ==> s.is_resident(k),
        is_history ==> forall|k: K|
            s.b1.contains(k) ==> #[trigger] s.evict_if_full(is_history).b1.contains(k),
        is_history ==> forall|k: K|
            s.b2.contains(k) ==> #[trigger] s.evict_if_full(is_history).b2.contains(k),
{
    let e = s.evict_if_full(is_history);
    if s.resident_len() >= s.c() {
        let a = s.replace_t2();
        let b = a.replace_t1();
        let d = b.demote();
        lemma_replace_t2_inv(s);
        lemma_replace_t1_inv(a);
        b.lemma_demote();
        lemma_demote_keys(b);
        let trimmed = !is_history && d.ghost_len() >= s.c() + 1;
        if trimmed {
            d.lemma_trim();
            lemma_trim_keys(d);
        }
        let kept = if trimmed {
            d.trim()
        } else {
            d
        };
        assert forall|k: K| #[trigger] e.places(k) <= 1 by {
            assert(kept.places(k) <= 1);
        }
        assert forall|k: K| #[trigger] e.is_resident(k) implies s.is_resident(k) by {
            if trimmed {
                assert(d.trim().is_resident(k) == d.is_resident(k));
            }
            assert(d.is_resident(k) ==> b.is_resident(k));
            assert(b.is_resident(k) == a.is_resident(k));
            assert(a.is_resident(k) == s.is_resident(k));
        }
        assert forall|k: K| #[trigger] e.contains_key(k) implies s.contains_key(k) by {
            if trimmed {
                assert(d.trim().contains_key(k) ==> d.contains_key(k));
            }
            assert(d.contains_key(k) == b.contains_key(k));
            assert(b.is_resident(k) == a.is_resident(k));
            assert(a.is_resident(k) == s.is_resident(k));
        }
    }
}

/// A lookup keeps the invariants.
pub proof fn lemma_touch_inv<K, V>(s: Cart<K, V>, k: K)
    requires
        s.inv(),
    ensures
        s.touch(k).inv(),
{
    s.lemma_touch_counts(k);
    assert(keys(touched(s.t1, k)) =~= keys(s.t1));
    assert(keys(touched(s.t2, k)) =~= keys(s.t2));
    assert forall|x: K| #[trigger] s.touch(k).places(x) <= 1 by {
        assert(s.places(x) <= 1);
    }
}

/// Storing a value keeps the invariants.
pub proof fn lemma_store_inv<K, V>(s: Cart<K, V>, k: K, v: V)
    requires
        s.inv(),
    ensures
        s.store(k, v).inv(),
{
    s.lemma_store_counts(k, v);
    assert(keys(stored(s.t1, k, v)) =~= keys(s.t1));
    assert(keys(stored(s.t2, k, v)) =~= keys(s.t2));
    assert forall|x: K| #[trigger] s.store(k, v).places(x) <= 1 by {
        assert(s.places(x) <= 1);
    }
}

/// An insertion keeps the invariants: whatever the operations that lead to
/// a state, the resident entries and the entries in all stay within their
/// bounds, the counters stay in step with the queues, and no key has two
/// entries.
pub proof fn lemma_insert_inv<K, V>(s: Cart<K, V>, k: K, v: V)
    requires
        s.inv(),
    ensures
        s.insert(k, v).inv(),
{
    let r = s.insert(k, v);
    assert(s.places(k) <= 1);
    if s.is_resident(k) {
        lemma_store_inv(s, k, v);
    } else if s.b1.contains(k) {
        let e = s.evict_if_full(true);
        lemma_evict_inv(s, true);
        assert(e.b1.contains(k));
        assert(e.places(k) <= 1);
        assert(!e.is_resident(k));
        e.lemma_promote_from_b1(k, v);
        let i = e.b1.index_of(k);
        lemma_remove_contains(e.b1, i);
        let l = Line { key: k, value: v, reference: false, longterm: true };
        lemma_keys_of_push(e.t1, l);
        lemma_push_contains(keys(e.t1), k);
        lemma_keys_moved(e, r, k);
    } else if s.b2.contains(k) {
        let e = s.evict_if_full(true);
        lemma_evict_inv(s, true);
        assert(e.b2.contains(k));
        assert(e.places(k) <= 1);
        assert(!e.is_resident(k));
        e.lemma_promote_from_b2(k, v);
        let i = e.b2.index_of(k);
        lemma_remove_contains(e.b2, i);
        let l = Line { key: k, value: v, reference: false, longterm: true };
        lemma_keys_of_push(e.t1, l);
        lemma_push_contains(keys(e.t1), k);
        lemma_keys_moved(e, r, k);
    } else {
        let e = s.evict_if_full(false);
        lemma_evict_inv(s, false);
        assert(!e.contains_key(k));
        e.lemma_insert_new(k, v);
        let l = Line { key: k, value: v, reference: false, longterm: false };
        lemma_keys_of_push(e.t1, l);
        lemma_push_contains(keys(e.t1), k);
        lemma_keys_moved(e, r, k);
    }
}

/// Inserting a ghost's key makes the key resident again, with the value
/// that was inserted.
pub proof fn lemma_ghost_promotion<K, V>(s: Cart<K, V>, k: K, v: V)
    requires
        s.inv(),
        s.is_ghost(k),
    ensures
        !s.is_resident(k),
        s.insert(k, v).is_resident(k),
        !s.insert(k, v).is_ghost(k),
        s.insert(k, v).lookup(k) == Some(v),
        s.insert(k, v).t1.len() >= 1,
        s.insert(k, v).t1.last() == (Line { key: k, value: v, reference: false, longterm: true }),
        s.insert(k, v).inserted == s.inserted,
{
    assert(s.places(k) <= 1);
    let e = s.evict_if_full(true);
    lemma_evict_inv(s, true);
    assert(!e.is_resident(k));
    let r = s.insert(k, v);
    lemma_insert_inv(s, k, v);
    assert(r.places(k) <= 1);
    let l = Line { key: k, value: v, reference: false, longterm: true };
    assert(r.t1 == e.t1.push(l));
    lemma_keys_of_push(e.t1, l);
    lemma_push_contains(keys(e.t1), k);
    let i = keys(r.t1).index_of(k);
    if i < e.t1.len() {
        assert(keys(e.t1)[i] == k);
    }
    assert(find(r.t1, k) == Some(v));
}

/// In a cache whose resident entries are at their target, the replacement
/// evicts exactly one: a resident key becomes the newest ghost of one
/// history, and every other key stays where it was or moves between the
/// queues.
pub proof fn lemma_replace_evicts_one<K, V>(s: Cart<K, V>)
    requires
        s.inv(),
        s.c() >= 1,
        s.resident_len() == s.c(),
    ensures
        s.replace().counts_ok(),
        s.replace().keys_distinct(),
        s.replace().same_totals(s),
        s.replace().resident_len() == s.c() - 1,
        s.replace().ghost_len() == s.ghost_len() + 1,
        s.replace().len() == s.len(),
        forall|k: K| #[trigger] s.replace().contains_key(k) == s.contains_key(k),
        ({
            let r = s.replace();
            ||| {
                &&& r.b1.len() == s.b1.len() + 1
                &&& r.b1.drop_last() == s.b1
                &&& r.b2 == s.b2
                &&& s.is_resident(r.b1.last())
                &&& !r.is_resident(r.b1.last())
            }
            ||| {
                &&& r.b2.len() == s.b2.len() + 1
                &&& r.b2.drop_last() == s.b2
                &&& r.b1 == s.b1
                &&& s.is_resident(r.b2.last())
                &&& !r.is_resident(r.b2.last())
            }
        }),
{
    let a = s.replace_t2();
    let b = a.replace_t1();
    let r = b.demote();
    lemma_replace_t2_inv(s);
    lemma_replace_t1_inv(a);
    b.lemma_demote();
    lemma_demote_keys(b);
    assert forall|k: K| #[trigger] r.contains_key(k) == s.contains_key(k) by {
        assert(r.contains_key(k) == b.contains_key(k));
        assert(b.is_resident(k) == a.is_resident(k));
        assert(a.is_resident(k) == s.is_resident(k));
    }
    if b.demotes_from_t1() {
        let x = b.t1[0].key;
        assert(r.b1.drop_last() =~= s.b1);
        lemma_keys_of_drop_first(b.t1);
        lemma_drop_first_contains(keys(b.t1));
        assert(keys(b.t1).contains(x));
        assert(b.is_resident(x) == a.is_resident(x));
        assert(a.is_resident(x) == s.is_resident(x));
        assert(r.b1.last() == x);
        lemma_push_contains(b.b1, x);
        assert(r.places(x) <= 1);
    } else {
        let x = b.t2[0].key;
        assert(r.b2.drop_last() =~= s.b2);
        lemma_keys_of_drop_first(b.t2);
        lemma_drop_first_contains(keys(b.t2));
        assert(keys(b.t2).contains(x));
        assert(b.is_resident(x) == a.is_resident(x));
        assert(a.is_resident(x) == s.is_resident(x));
        assert(r.b2.last() == x);
        lemma_push_contains(b.b2, x);
        assert(r.places(x) <= 1);
    }
}

/// In a cache whose resident entries and whose ghosts are both at their
/// target, making room for a new key replaces one resident entry and then
/// forgets exactly one ghost: the oldest of the recency history where that
/// is longer than `q` or the frequency history is empty, else the oldest of
/// the frequency history. One entry fewer is left, and one more replacement
/// is counted.
pub proof fn lemma_evict_forgets_one<K, V>(s: Cart<K, V>)
    requires
        s.inv(),
        s.c() >= 1,
        s.resident_len() == s.c(),
        s.ghost_len() == s.c(),
    ensures
        s.evict_if_full(false).resident_len() == s.c() - 1,
        s.evict_if_full(false).ghost_len() == s.c(),
        s.evict_if_full(false).len() == s.len() - 1,
        s.evict_if_full(false).evicted == s.evicted + 1,
        s.evict_if_full(false).inserted == s.inserted,
        ({
            let r = s.replace();
            let e = s.evict_if_full(false);
            if r.b1.len() > r.q || r.b2.len() == 0 {
                &&& r.b1.len() >= 1
                &&& e.b1 == r.b1.drop_first()
                &&& e.b2 == r.b2
                &&& !e.contains_key(r.b1[0])
            } else {
                &&& r.b2.len() >= 1
                &&& e.b2 == r.b2.drop_first()
                &&& e.b1 == r.b1
                &&& !e.contains_key(r.b2[0])
            }
        }),
        forall|k: K| #[trigger] s.evict_if_full(false).contains_key(k) ==> s.contains_key(k),
{
    let r = s.replace();
    let e = s.evict_if_full(false);
    lemma_replace_evicts_one(s);
    lemma_evict_inv(s, false);
    r.lemma_trim();
    lemma_trim_keys(r);
    let t = r.trim();
    if r.trims_b1() {
        let x = r.b1[0];
        lemma_drop_first_contains(r.b1);
        assert(r.places(x) <= 1);
        assert(t.is_resident(x) == r.is_resident(x));
    } else {
        let x = r.b2[0];
        lemma_drop_first_contains(r.b2);
        assert(r.places(x) <= 1);
        assert(t.is_resident(x) == r.is_resident(x));
    }
}

/// The return of a ghost moves its key and nothing else: the key leaves its
/// history, whose other ghosts keep their order, and joins the tail of the
/// recency queue as an unreferenced line with the frequency bit; the
/// long-term count goes up by one, and the other queue, the other history
/// and the short-term count stay as they are.
pub proof fn lemma_revive_moves<K, V>(s: Cart<K, V>, k: K, v: V, frequent: bool)
    requires
        s.keys_distinct(),
        if frequent {
            s.b2.contains(k)
        } else {
            s.b1.contains(k)
        },
    ensures
        s.revive(k, v, frequent).keys_distinct(),
        s.revive(k, v, frequent).t1.drop_last() == s.t1,
        s.revive(k, v, frequent).t1.last() == (Line {
            key: k,
            value: v,
            reference: false,
            longterm: true,
        }),
        s.revive(k, v, frequent).t2 == s.t2,
        !s.revive(k, v, frequent).is_ghost(k),
        s.revive(k, v, frequent).is_resident(k),
        s.revive(k, v, frequent).ghost_len() == s.ghost_len() - 1,
        s.revive(k, v, frequent).longterm_count == s.longterm_count + 1,
        s.revive(k, v, frequent).shortterm_count == s.shortterm_count,
        s.revive(k, v, frequent).q == s.q,
        s.revive(k, v, frequent).same_totals(s),
        forall|x: K| #[trigger] s.revive(k, v, frequent).contains_key(x) == s.contains_key(x),
        forall|x: K|
            x != k ==> (#[trigger] s.revive(k, v, frequent).b1.contains(x) <==> s.b1.contains(x)),
        forall|x: K|
            x != k ==> (#[trigger] s.revive(k, v, frequent).b2.contains(x) <==> s.b2.contains(x)),
{
    let r = s.revive(k, v, frequent);
    let l = Line { key: k, value: v, reference: false, longterm: true };
    assert(s.places(k) <= 1);
    assert(r.t1.drop_last() =~= s.t1);
    lemma_keys_of_push(s.t1, l);
    lemma_push_contains(keys(s.t1), k);
    if frequent {
        let i = s.b2.index_of(k);
        lemma_remove_contains(s.b2, i);
        s.b2.remove_ensures(i);
    } else {
        let i = s.b1.index_of(k);
        lemma_remove_contains(s.b1, i);
        s.b1.remove_ensures(i);
    }
    lemma_keys_moved(s, r, k);
}

/// Whether every resident line of `s` has a key and a value that `f`
/// relates.
pub open spec fn all_values<K, V>(s: Cart<K, V>, f: spec_fn(K, V) -> bool) -> bool {
    &&& forall|i: int| 0 <= i < s.t1.len() ==> f((#[trigger] s.t1[i]).key, s.t1[i].value)
    &&& forall|i: int| 0 <= i < s.t2.len() ==> f((#[trigger] s.t2[i]).key, s.t2[i].value)
}

/// The sweep over the frequency queue changes no resident value.
pub proof fn lemma_replace_t2_values<K, V>(s: Cart<K, V>, f: spec_fn(K, V) -> bool)
    requires
        all_values(s, f),
    ensures
        all_values(s.replace_t2(), f),
    decreases s.t2.len(),
{
    if s.t2_front_referenced() {
        let n = s.second_chance();
        assert forall|i: int| 0 <= i < n.t1.len() implies f(
            (#[trigger] n.t1[i]).key,
            n.t1[i].value,
        ) by {
            if i < s.t1.len() {
                assert(n.t1[i] == s.t1[i]);
            } else {
                assert(n.t1[i].key == s.t2[0].key && n.t1[i].value == s.t2[0].value);
            }
        }
        assert forall|i: int| 0 <= i < n.t2.len() implies f(
            (#[trigger] n.t2[i]).key,
            n.t2[i].value,
        ) by {
            assert(n.t2[i] == s.t2[i + 1]);
        }
        lemma_replace_t2_values(n, f);
    }
}

/// The sweep over the recency queue changes no resident value.
pub proof fn lemma_replace_t1_values<K, V>(s: Cart<K, V>, f: spec_fn(K, V) -> bool)
    requires
        all_values(s, f),
    ensures
        all_values(s.replace_t1(), f),
    decreases s.t1_work(),
{
    if s.t1_front_passed() {
        let n = s.pass_t1_front();
        s.lemma_pass_t1_front_decreases();
        assert forall|i: int| 0 <= i < n.t1.len() implies f(
            (#[trigger] n.t1[i]).key,
            n.t1[i].value,
        ) by {
            if i < s.t1.len() - 1 {
                assert(n.t1[i] == s.t1[i + 1]);
            } else {
                assert(n.t1[i].key == s.t1[0].key && n.t1[i].value == s.t1[0].value);
            }
        }
        assert forall|i: int| 0 <= i < n.t2.len() implies f(
            (#[trigger] n.t2[i]).key,
            n.t2[i].value,
        ) by {
            if i < s.t2.len() {
                assert(n.t2[i] == s.t2[i]);
            } else {
                assert(n.t2[i] == s.t1[0]);
            }
        }
        lemma_replace_t1_values(n, f);
    }
}

/// Every resident value is one that was inserted under its key: what holds
/// of every resident pair of key and value, and of the pair inserted, holds
/// of every resident pair after the insertion.
pub proof fn lemma_insert_values<K, V>(s: Cart<K, V>, k: K, v: V, f: spec_fn(K, V) -> bool)
    requires
        all_values(s, f),
        f(k, v),
    ensures
        all_values(s.insert(k, v), f),
{
    let r = s.insert(k, v);
    if s.is_resident(k) {
        assert forall|i: int| 0 <= i < r.t1.len() implies f(
            (#[trigger] r.t1[i]).key,
            r.t1[i].value,
        ) by {
            assert(f(s.t1[i].key, s.t1[i].value));
        }
        assert forall|i: int| 0 <= i < r.t2.len() implies f(
            (#[trigger] r.t2[i]).key,
            r.t2[i].value,
        ) by {
            assert(f(s.t2[i].key, s.t2[i].value));
        }
    } else {
        let is_history = s.b1.contains(k) || s.b2.contains(k);
        let e = s.evict_if_full(is_history);
        if s.resident_len() >= s.c() {
            let a = s.replace_t2();
            let b = a.replace_t1();
            let d = b.demote();
            lemma_replace_t2_values(s, f);
            lemma_replace_t1_values(a, f);
            assert forall|i: int| 0 <= i < d.t1.len() implies f(
                (#[trigger] d.t1[i]).key,
                d.t1[i].value,
            ) by {
                if b.demotes_from_t1() {
                    assert(d.t1[i] == b.t1[i + 1]);
                } else {
                    assert(d.t1[i] == b.t1[i]);
                }
            }
            assert forall|i: int| 0 <= i < d.t2.len() implies f(
                (#[trigger] d.t2[i]).key,
                d.t2[i].value,
            ) by {
                if !b.demotes_from_t1() && b.t2.len() > 0 {
                    assert(d.t2[i] == b.t2[i + 1]);
                } else {
                    assert(d.t2[i] == b.t2[i]);
                }
            }
            assert(e.t1 == d.t1 && e.t2 == d.t2);
        }
        assert(all_values(e, f));
        assert(r.t2 == e.t2);
        assert forall|i: int| 0 <= i < r.t1.len() implies f(
            (#[trigger] r.t1[i]).key,
            r.t1[i].value,
        ) by {
            if i < e.t1.len() {
                assert(r.t1[i] == e.t1[i]);
            }
        }
    }
}

/// A lookup changes no resident value, and finds only a value that is
/// resident under the key looked up.
pub proof fn lemma_lookup_values<K, V>(s: Cart<K, V>, k: K, f: spec_fn(K, V) -> bool)
    requires
        all_values(s, f),
    ensures
        all_values(s.touch(k), f),
        s.lookup(k) is Some ==> f(k, s.lookup(k)->0),
{
    assert forall|i: int| 0 <= i < s.t1.len() implies f(
        (#[trigger] s.touch(k).t1[i]).key,
        s.touch(k).t1[i].value,
    ) by {
        assert(f(s.t1[i].key, s.t1[i].value));
    }
    assert forall|i: int| 0 <= i < s.t2.len() implies f(
        (#[trigger] s.touch(k).t2[i]).key,
        s.touch(k).t2[i].value,
    ) by {
        assert(f(s.t2[i].key, s.t2[i].value));
    }
    if keys(s.t1).contains(k) {
        let i = keys(s.t1).index_of(k);
        assert(f(s.t1[i].key, s.t1[i].value));
    } else if keys(s.t2).contains(k) {
        let i = keys(s.t2).index_of(k);
        assert(f(s.t2[i].key, s.t2[i].value));
    }
}

/// Whether every resident value of `s` is its own key.
pub open spec fn values_are_keys<K>(s: Cart<K, K>) -> bool {
    &&& forall|i: int| 0 <= i < s.t1.len() ==> (#[trigger] s.t1[i]).value == s.t1[i].key
    &&& forall|i: int| 0 <= i < s.t2.len() ==> (#[trigger] s.t2[i]).value == s.t2[i].key
}

/// In a cache where every value was inserted as its own key, every lookup
/// that finds a value finds the key looked up, and insertions of a key as
/// its own value and lookups keep it so.
pub proof fn lemma_values_are_keys<K>(s: Cart<K, K>, k: K)
    requires
        values_are_keys(s),
    ensures
        values_are_keys(s.insert(k, k)),
        values_are_keys(s.touch(k)),
        s.lookup(k) is Some ==> s.lookup(k) == Some(k),
        values_are_keys(Cart::<K, K>::fresh(s.capacity)),
{
    let f = |x: K, y: K| y == x;
    assert(all_values(s, f));
    lemma_insert_values(s, k, k, f);
    lemma_lookup_values(s, k, f);
    assert(all_values(s.insert(k, k), f));
    assert(all_values(s.touch(k), f));
}

/// A cache that was just made or cleared holds no entry, has counted
/// nothing, and meets the invariants.
pub proof fn lemma_fresh<K, V>(capacity: nat, k: K)
    requires
        capacity >= 1,
    ensures
        Cart::<K, V>::fresh(capacity).inv(),
        Cart::<K, V>::fresh(capacity).len() == 0,
        Cart::<K, V>::fresh(capacity).inserted == 0,
        Cart::<K, V>::fresh(capacity).evicted == 0,
        !Cart::<K, V>::fresh(capacity).contains_key(k),
        Cart::<K, V>::fresh(capacity).lookup(k) is None,
{
    let s = Cart::<K, V>::fresh(capacity);
    assert(keys(s.t1) =~= Seq::empty());
    assert(keys(s.t2) =~= Seq::empty());
    assert forall|x: K| #[trigger] s.places(x) <= 1 by {
        assert(keys(s.t1) =~= Seq::empty());
    }
}

} // verus!
