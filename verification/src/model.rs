//! The replacement policy as a mathematical model.
//!
//! A [`Cart`] is the state of a cache with the handles taken away: two
//! queues of resident lines and two lists of ghost keys, each oldest first,
//! with the adaptive parameters and the counters. Every operation of the
//! cache is a function on this state.

use vstd::prelude::*;

verus! {

/// A resident entry.
pub struct Line<K, V> {
    pub key: K,
    pub value: V,
    /// The clock bit.
    pub reference: bool,
    /// The frequency bit.
    pub longterm: bool,
}

/// The state of a cache.
pub struct Cart<K, V> {
    /// The number of entries, resident and ghost, that the cache has room for.
    pub capacity: nat,
    /// The recency queue.
    pub t1: Seq<Line<K, V>>,
    /// The frequency queue.
    pub t2: Seq<Line<K, V>>,
    /// The keys evicted from the recency class.
    pub b1: Seq<K>,
    /// The keys evicted from the frequency class.
    pub b2: Seq<K>,
    /// The target size of the recency queue.
    pub p: nat,
    /// The target size of the recency history.
    pub q: nat,
    /// The number of resident lines without the frequency bit.
    pub shortterm_count: nat,
    /// The number of resident lines with the frequency bit.
    pub longterm_count: nat,
    /// The number of keys inserted since the cache was last empty.
    pub inserted: nat,
    /// The number of replacements since the cache was last empty.
    pub evicted: nat,
}

/// The keys of a queue, in its order.
pub open spec fn keys<K, V>(s: Seq<Line<K, V>>) -> Seq<K> {
    s.map_values(|l: Line<K, V>| l.key)
}

/// The number of lines of `s` without the frequency bit.
pub open spec fn count_short<K, V>(s: Seq<Line<K, V>>) -> nat
    decreases s.len(),
{
    if s.len() == 0 {
        0
    } else {
        count_short(s.drop_last()) + if s.last().longterm {
            0nat
        } else {
            1nat
        }
    }
}

/// The number of lines of `s` with the clock bit set.
pub open spec fn count_reference<K, V>(s: Seq<Line<K, V>>) -> nat
    decreases s.len(),
{
    if s.len() == 0 {
        0
    } else {
        count_reference(s.drop_last()) + if s.last().reference {
            1nat
        } else {
            0nat
        }
    }
}

/// The value that queue `s` holds for `k`, if it holds one.
pub open spec fn find<K, V>(s: Seq<Line<K, V>>, k: K) -> Option<V> {
    if keys(s).contains(k) {
        Some(s[keys(s).index_of(k)].value)
    } else {
        None
    }
}

/// Queue `s` with the clock bit set on the line of `k`.
pub open spec fn touched<K, V>(s: Seq<Line<K, V>>, k: K) -> Seq<Line<K, V>> {
    s.map_values(
        |l: Line<K, V>|
            if l.key == k {
                Line { key: l.key, value: l.value, reference: true, longterm: l.longterm }
            } else {
                l
            },
    )
}

/// Queue `s` with the clock bit set on the line of `k` and its value
/// replaced by `v`.
pub open spec fn stored<K, V>(s: Seq<Line<K, V>>, k: K, v: V) -> Seq<Line<K, V>> {
    s.map_values(
        |l: Line<K, V>|
            if l.key == k {
                Line { key: l.key, value: v, reference: true, longterm: l.longterm }
            } else {
                l
            },
    )
}

/// A push adds one to the count of short-term lines where the line pushed
/// is one.
pub proof fn lemma_count_short_push<K, V>(s: Seq<Line<K, V>>, l: Line<K, V>)
    ensures
        count_short(s.push(l)) == count_short(s) + if l.longterm {
            0nat
        } else {
            1nat
        },
{
    assert(s.push(l).drop_last() =~= s);
}

/// The count of short-term lines is that of the queue without its front,
/// and one more where the front is one.
pub proof fn lemma_count_short_first<K, V>(s: Seq<Line<K, V>>)
    requires
        s.len() > 0,
    ensures
        count_short(s) == count_short(s.drop_first()) + if s[0].longterm {
            0nat
        } else {
            1nat
        },
    decreases s.len(),
{
    if s.len() == 1 {
        assert(s.drop_last() =~= s.drop_first());
        assert(count_short(s.drop_last()) == 0);
    } else {
        lemma_count_short_first(s.drop_last());
        assert(s.drop_last().drop_first() =~= s.drop_first().drop_last());
    }
}

/// A queue has no more short-term lines than lines.
pub proof fn lemma_count_short_bound<K, V>(s: Seq<Line<K, V>>)
    ensures
        count_short(s) <= s.len(),
    decreases s.len(),
{
    if s.len() > 0 {
        lemma_count_short_bound(s.drop_last());
    }
}

/// A push adds one to the count of referenced lines where the line pushed
/// is one.
pub proof fn lemma_count_reference_push<K, V>(s: Seq<Line<K, V>>, l: Line<K, V>)
    ensures
        count_reference(s.push(l)) == count_reference(s) + if l.reference {
            1nat
        } else {
            0nat
        },
{
    assert(s.push(l).drop_last() =~= s);
}

/// The count of referenced lines is that of the queue without its front,
/// and one more where the front is one.
pub proof fn lemma_count_reference_first<K, V>(s: Seq<Line<K, V>>)
    requires
        s.len() > 0,
    ensures
        count_reference(s) == count_reference(s.drop_first()) + if s[0].reference {
            1nat
        } else {
            0nat
        },
    decreases s.len(),
{
    if s.len() == 1 {
        assert(s.drop_last() =~= s.drop_first());
        assert(count_reference(s.drop_last()) == 0);
    } else {
        lemma_count_reference_first(s.drop_last());
        assert(s.drop_last().drop_first() =~= s.drop_first().drop_last());
    }
}

impl<K, V> Cart<K, V> {
    /// The state of a cache that was just made or cleared.
    pub open spec fn fresh(capacity: nat) -> Self {
        Cart {
            capacity,
            t1: Seq::empty(),
            t2: Seq::empty(),
            b1: Seq::empty(),
            b2: Seq::empty(),
            p: 0,
            q: 0,
            shortterm_count: 0,
            longterm_count: 0,
            inserted: 0,
            evicted: 0,
        }
    }

    /// The target bound on the resident entries.
    pub open spec fn c(self) -> nat {
        self.capacity / 2
    }

    /// The bound that the resident entries keep: the target, but one where
    /// the target is zero.
    pub open spec fn resident_limit(self) -> nat {
        if self.c() >= 1 {
            self.c()
        } else {
            1
        }
    }

    /// The number of resident entries.
    pub open spec fn resident_len(self) -> nat {
        self.t1.len() + self.t2.len()
    }

    /// The number of ghost entries.
    pub open spec fn ghost_len(self) -> nat {
        self.b1.len() + self.b2.len()
    }

    /// The number of entries, resident and ghost.
    pub open spec fn len(self) -> nat {
        self.resident_len() + self.ghost_len()
    }

    /// Whether `k` has a resident entry.
    pub open spec fn is_resident(self, k: K) -> bool {
        keys(self.t1).contains(k) || keys(self.t2).contains(k)
    }

    /// Whether `k` has a ghost entry.
    pub open spec fn is_ghost(self, k: K) -> bool {
        self.b1.contains(k) || self.b2.contains(k)
    }

    /// Whether `k` has an entry, resident or ghost.
    pub open spec fn contains_key(self, k: K) -> bool {
        self.is_resident(k) || self.is_ghost(k)
    }

    /// In how many of the two queues and two histories `k` is found.
    pub open spec fn places(self, k: K) -> nat {
        let in_t1: nat = if keys(self.t1).contains(k) {
            1
        } else {
            0
        };
        let in_t2: nat = if keys(self.t2).contains(k) {
            1
        } else {
            0
        };
        let in_b1: nat = if self.b1.contains(k) {
            1
        } else {
            0
        };
        let in_b2: nat = if self.b2.contains(k) {
            1
        } else {
            0
        };
        in_t1 + in_t2 + in_b1 + in_b2
    }

    /// No key has two entries: none is twice in a queue or a history, and
    /// none is in two of them.
    pub open spec fn keys_distinct(self) -> bool {
        &&& keys(self.t1).no_duplicates()
        &&& keys(self.t2).no_duplicates()
        &&& self.b1.no_duplicates()
        &&& self.b2.no_duplicates()
        &&& forall|k: K| #[trigger] self.places(k) <= 1
    }

    /// The value cached for `k`, if `k` is resident.
    pub open spec fn lookup(self, k: K) -> Option<V> {
        match find(self.t1, k) {
            Some(v) => Some(v),
            None => find(self.t2, k),
        }
    }

    /// The state after a lookup of `k`: the clock bit of its line, if it is
    /// resident, is set.
    pub open spec fn touch(self, k: K) -> Self {
        Cart { t1: touched(self.t1, k), t2: touched(self.t2, k), ..self }
    }

    /// The state after `v` was stored in the resident line of `k`.
    pub open spec fn store(self, k: K, v: V) -> Self {
        Cart { t1: stored(self.t1, k, v), t2: stored(self.t2, k, v), ..self }
    }

    /// The size of the frequency class, ghosts included, as the policy
    /// measures it.
    pub open spec fn frequency_size(self) -> int {
        self.t2.len() + self.b2.len() + self.t1.len() - self.shortterm_count
    }

    /// `q` after a line joined the recency queue from the frequency class:
    /// one more where that class fills the target, but no more than what the
    /// recency queue leaves of the capacity.
    pub open spec fn bumped_q(self) -> nat {
        if self.frequency_size() >= self.c() {
            if self.q + 1 <= self.capacity - self.t1.len() {
                self.q + 1
            } else {
                (self.capacity - self.t1.len()) as nat
            }
        } else {
            self.q
        }
    }

    /// Whether the front of the frequency queue gets a second chance.
    pub open spec fn t2_front_referenced(self) -> bool {
        self.t2.len() > 0 && self.t2[0].reference
    }

    /// One step of the sweep over the frequency queue: its front joins the
    /// tail of the recency queue with the clock bit cleared.
    pub open spec fn second_chance(self) -> Self {
        let l = self.t2[0];
        let moved = Cart {
            t1: self.t1.push(
                Line { key: l.key, value: l.value, reference: false, longterm: l.longterm },
            ),
            t2: self.t2.drop_first(),
            ..self
        };
        Cart { q: moved.bumped_q(), ..moved }
    }

    /// The sweep over the frequency queue: second chances until its front is
    /// unreferenced or the queue is empty.
    pub open spec fn replace_t2(self) -> Self
        decreases self.t2.len(),
    {
        if self.t2_front_referenced() {
            self.second_chance().replace_t2()
        } else {
            self
        }
    }

    /// Whether the front of the recency queue is passed over by the sweep.
    pub open spec fn t1_front_passed(self) -> bool {
        self.t1.len() > 0 && (self.t1[0].longterm || self.t1[0].reference)
    }

    /// The smaller of `p + 1` and the length of the recency history.
    pub open spec fn promotion_threshold(self) -> nat {
        if self.p + 1 <= self.b1.len() {
            self.p + 1
        } else {
            self.b1.len()
        }
    }

    /// One step of the sweep over the recency queue. A referenced front goes
    /// back to the tail with the clock bit cleared, and earns the frequency
    /// bit where the queue is as long as the threshold. An unreferenced front
    /// with the frequency bit moves to the frequency queue, and `q` goes down
    /// by one but not under what the recency queue leaves of the target.
    pub open spec fn pass_t1_front(self) -> Self {
        let l = self.t1[0];
        let rest = self.t1.drop_first();
        if l.reference {
            if self.t1.len() >= self.promotion_threshold() && !l.longterm {
                Cart {
                    t1: rest.push(
                        Line { key: l.key, value: l.value, reference: false, longterm: true },
                    ),
                    shortterm_count: (self.shortterm_count - 1) as nat,
                    longterm_count: self.longterm_count + 1,
                    ..self
                }
            } else {
                Cart {
                    t1: rest.push(
                        Line { key: l.key, value: l.value, reference: false, longterm: l.longterm },
                    ),
                    ..self
                }
            }
        } else {
            let floor = (self.c() - rest.len()) as nat;
            Cart {
                t1: rest,
                t2: self.t2.push(l),
                q: if self.q > 0 && self.q - 1 >= floor {
                    (self.q - 1) as nat
                } else {
                    floor
                },
                ..self
            }
        }
    }

    /// What the sweep over the recency queue still has to do at most.
    pub open spec fn t1_work(self) -> nat {
        self.t1.len() + count_reference(self.t1)
    }

    /// Every step of the sweep over the recency queue leaves less to do.
    pub proof fn lemma_pass_t1_front_decreases(self)
        requires
            self.t1_front_passed(),
        ensures
            self.pass_t1_front().t1_work() < self.t1_work(),
    {
        let l = self.t1[0];
        let rest = self.t1.drop_first();
        lemma_count_reference_first(self.t1);
        if l.reference {
            lemma_count_reference_push(rest, self.pass_t1_front().t1.last());
            assert(self.pass_t1_front().t1 =~= rest.push(self.pass_t1_front().t1.last()));
        }
    }

    /// The sweep over the recency queue: steps until its front is neither
    /// referenced nor marked with the frequency bit, or the queue is empty.
    pub open spec fn replace_t1(self) -> Self
        decreases self.t1_work(),
    {
        if self.t1_front_passed() {
            proof {
                self.lemma_pass_t1_front_decreases();
            }
            self.pass_t1_front().replace_t1()
        } else {
            self
        }
    }

    /// Whether the victim is taken from the recency queue.
    pub open spec fn demotes_from_t1(self) -> bool {
        self.t1.len() >= 1 && self.t1.len() >= self.p
    }

    /// The eviction of one resident entry into history: the front of the
    /// recency queue where that queue is as long as its target (and not
    /// empty), else the front of the frequency queue, if there is one.
    pub open spec fn demote(self) -> Self {
        if self.demotes_from_t1() {
            Cart {
                t1: self.t1.drop_first(),
                b1: self.b1.push(self.t1[0].key),
                shortterm_count: (self.shortterm_count - 1) as nat,
                ..self
            }
        } else if self.t2.len() > 0 {
            Cart {
                t2: self.t2.drop_first(),
                b2: self.b2.push(self.t2[0].key),
                longterm_count: (self.longterm_count - 1) as nat,
                ..self
            }
        } else {
            self
        }
    }

    /// The replacement: both sweeps, then the eviction of the victim.
    pub open spec fn replace(self) -> Self {
        self.replace_t2().replace_t1().demote()
    }

    /// Whether the ghost to forget is taken from the recency history.
    pub open spec fn trims_b1(self) -> bool {
        self.b1.len() > self.q || self.b2.len() == 0
    }

    /// One ghost is forgotten: the oldest of the recency history where that
    /// is longer than `q` or the frequency history is empty, else the oldest
    /// of the frequency history.
    pub open spec fn trim(self) -> Self {
        if self.trims_b1() {
            Cart { b1: self.b1.drop_first(), ..self }
        } else {
            Cart { b2: self.b2.drop_first(), ..self }
        }
    }

    /// Room is made for one more resident entry, where there is none. With
    /// the resident entries at their target, one is replaced; for a key that
    /// is new to the cache one ghost is then forgotten where the histories
    /// hold more than the target.
    pub open spec fn evict_if_full(self, is_history: bool) -> Self {
        if self.resident_len() >= self.c() {
            let replaced = self.replace();
            let trimmed = if !is_history && replaced.ghost_len() >= self.c() + 1 {
                replaced.trim()
            } else {
                replaced
            };
            Cart { evicted: trimmed.evicted + 1, ..trimmed }
        } else {
            self
        }
    }

    /// A key that is new to the cache joins the tail of the recency queue.
    pub open spec fn insert_new(self, k: K, v: V) -> Self {
        Cart {
            t1: self.t1.push(Line { key: k, value: v, reference: false, longterm: false }),
            shortterm_count: self.shortterm_count + 1,
            inserted: self.inserted + 1,
            ..self
        }
    }

    /// `p` after a hit in the recency history: up by the ratio of short-term
    /// lines to recency ghosts, at least by one, and no further than the
    /// target.
    pub open spec fn raised_p(self) -> nat {
        let ratio = self.shortterm_count / self.b1.len();
        let step = if ratio >= 1 {
            ratio
        } else {
            1
        };
        if self.p + step <= self.c() {
            self.p + step
        } else {
            self.c()
        }
    }

    /// `p` after a hit in the frequency history: down by the ratio of
    /// long-term lines to frequency ghosts, at least by one, and no further
    /// than zero.
    pub open spec fn lowered_p(self) -> nat {
        let ratio = self.longterm_count / self.b2.len();
        let step = if ratio >= 1 {
            ratio
        } else {
            1
        };
        if self.p > step {
            (self.p - step) as nat
        } else {
            0
        }
    }

    /// A ghost becomes resident again, with `v`: it leaves its history, the
    /// frequency history where `frequent` and the recency history else, and
    /// joins the tail of the recency queue with the frequency bit set.
    pub open spec fn revive(self, k: K, v: V, frequent: bool) -> Self {
        Cart {
            b1: if frequent {
                self.b1
            } else {
                self.b1.remove(self.b1.index_of(k))
            },
            b2: if frequent {
                self.b2.remove(self.b2.index_of(k))
            } else {
                self.b2
            },
            t1: self.t1.push(Line { key: k, value: v, reference: false, longterm: true }),
            longterm_count: self.longterm_count + 1,
            ..self
        }
    }

    /// A ghost of the recency history becomes resident again, with `v`, and
    /// `p` goes up.
    pub open spec fn promote_from_b1(self, k: K, v: V) -> Self {
        Cart { p: self.raised_p(), ..self.revive(k, v, false) }
    }

    /// A ghost of the frequency history becomes resident again, with `v`,
    /// `p` goes down, and `q` goes up where the frequency class fills the
    /// target.
    pub open spec fn promote_from_b2(self, k: K, v: V) -> Self {
        let moved = Cart { p: self.lowered_p(), ..self.revive(k, v, true) };
        Cart { q: moved.bumped_q(), ..moved }
    }

    /// The state after `insert(k, v)`.
    pub open spec fn insert(self, k: K, v: V) -> Self {
        if self.is_resident(k) {
            self.store(k, v)
        } else if self.b1.contains(k) {
            self.evict_if_full(true).promote_from_b1(k, v)
        } else if self.b2.contains(k) {
            self.evict_if_full(true).promote_from_b2(k, v)
        } else {
            self.evict_if_full(false).insert_new(k, v)
        }
    }

    /// The capacity and the two cumulative counters are those of `pre`.
    pub open spec fn same_totals(self, pre: Self) -> bool {
        &&& self.capacity == pre.capacity
        &&& self.inserted == pre.inserted
        &&& self.evicted == pre.evicted
    }

    /// What holds of the numbers of a cache at every step of every
    /// operation.
    pub open spec fn counts_ok(self) -> bool {
        &&& self.capacity >= 1
        &&& self.p <= self.c()
        &&& self.q < self.capacity
        &&& self.shortterm_count == count_short(self.t1)
        &&& self.shortterm_count + self.longterm_count == self.resident_len()
        &&& forall|i: int| 0 <= i < self.t2.len() ==> (#[trigger] self.t2[i]).longterm
        &&& self.resident_len() <= self.resident_limit()
        &&& self.ghost_len() <= self.c() + 1
    }

    /// A second chance keeps the numbers in order and leaves the histories
    /// and the number of resident entries as they are.
    pub proof fn lemma_second_chance(self)
        requires
            self.counts_ok(),
            self.t2_front_referenced(),
        ensures
            self.second_chance().counts_ok(),
            self.second_chance().resident_len() == self.resident_len(),
            self.second_chance().b1 == self.b1,
            self.second_chance().b2 == self.b2,
            self.frequency_size() >= 0,
            self.t1.len() < self.capacity,
    {
        let l = self.t2[0];
        let cleared = Line { key: l.key, value: l.value, reference: false, longterm: l.longterm };
        lemma_count_short_push(self.t1, cleared);
        lemma_count_short_bound(self.t1);
        let next = self.second_chance();
        assert forall|i: int| 0 <= i < next.t2.len() implies (#[trigger] next.t2[i]).longterm by {
            assert(next.t2[i] == self.t2[i + 1]);
        }
    }

    /// A step of the sweep over the recency queue keeps the numbers in order
    /// and leaves the histories and the number of resident entries as they
    /// are.
    pub proof fn lemma_pass_t1_front(self)
        requires
            self.counts_ok(),
            self.t1_front_passed(),
        ensures
            self.pass_t1_front().counts_ok(),
            self.pass_t1_front().resident_len() == self.resident_len(),
            self.pass_t1_front().b1 == self.b1,
            self.pass_t1_front().b2 == self.b2,
            self.t1[0].reference && !self.t1[0].longterm ==> self.shortterm_count >= 1,
            self.t1.len() - 1 <= self.c(),
    {
        let l = self.t1[0];
        let rest = self.t1.drop_first();
        let next = self.pass_t1_front();
        lemma_count_short_first(self.t1);
        if l.reference {
            lemma_count_short_push(rest, next.t1.last());
            assert(next.t1 =~= rest.push(next.t1.last()));
        } else {
            assert forall|i: int| 0 <= i < next.t2.len() implies (#[trigger] next.t2[i]).longterm by {
                if i < self.t2.len() {
                    assert(next.t2[i] == self.t2[i]);
                }
            }
        }
    }

    /// The eviction of a victim keeps the numbers in order, adds one ghost
    /// where it removes a resident entry, and leaves room for a resident
    /// entry where the resident entries had reached their target.
    pub proof fn lemma_demote(self)
        requires
            self.counts_ok(),
            self.ghost_len() <= self.c(),
            !self.t1_front_passed(),
        ensures
            self.demote().counts_ok(),
            self.demote().len() == self.len(),
            self.demote().ghost_len() <= self.ghost_len() + 1,
            self.resident_len() >= self.c() ==> self.demote().resident_len()
                < self.resident_limit(),
            self.demote().resident_len() <= self.resident_len(),
            self.demotes_from_t1() ==> self.shortterm_count >= 1 && !self.t1[0].longterm,
            !self.demotes_from_t1() && self.t2.len() > 0 ==> self.longterm_count >= 1
                && self.t2[0].longterm,
    {
        let next = self.demote();
        lemma_count_short_bound(self.t1);
        if self.demotes_from_t1() {
            lemma_count_short_first(self.t1);
        } else if self.t2.len() > 0 {
            assert(self.t2[0].longterm);
            assert forall|i: int| 0 <= i < next.t2.len() implies (#[trigger] next.t2[i]).longterm by {
                assert(next.t2[i] == self.t2[i + 1]);
            }
        }
    }

    /// Forgetting a ghost keeps the numbers in order and takes one ghost
    /// away.
    pub proof fn lemma_trim(self)
        requires
            self.counts_ok(),
            self.ghost_len() >= 1,
        ensures
            self.trim().counts_ok(),
            self.trim().ghost_len() == self.ghost_len() - 1,
            self.trim().resident_len() == self.resident_len(),
            self.trims_b1() ==> self.b1.len() > 0,
            !self.trims_b1() ==> self.b2.len() > 0,
    {
    }

    /// With room for a resident entry, a new key keeps the numbers in order.
    pub proof fn lemma_insert_new(self, k: K, v: V)
        requires
            self.counts_ok(),
            self.resident_len() < self.resident_limit(),
        ensures
            self.insert_new(k, v).counts_ok(),
            self.insert_new(k, v).ghost_len() == self.ghost_len(),
            self.resident_limit() + self.c() <= self.capacity,
    {
        lemma_count_short_push(
            self.t1,
            Line { key: k, value: v, reference: false, longterm: false },
        );
    }

    /// With room for a resident entry, the return of a recency ghost keeps
    /// the numbers in order and takes one ghost away.
    pub proof fn lemma_promote_from_b1(self, k: K, v: V)
        requires
            self.counts_ok(),
            self.resident_len() < self.resident_limit(),
            self.b1.contains(k),
        ensures
            self.promote_from_b1(k, v).counts_ok(),
            self.promote_from_b1(k, v).ghost_len() == self.ghost_len() - 1,
            self.shortterm_count <= self.capacity,
            self.longterm_count <= self.capacity,
    {
        lemma_count_short_push(
            self.t1,
            Line { key: k, value: v, reference: false, longterm: true },
        );
        lemma_count_short_bound(self.t1);
        let i = self.b1.index_of(k);
        self.b1.remove_ensures(i);
    }

    /// With room for a resident entry, the return of a frequency ghost keeps
    /// the numbers in order and takes one ghost away.
    pub proof fn lemma_promote_from_b2(self, k: K, v: V)
        requires
            self.counts_ok(),
            self.resident_len() < self.resident_limit(),
            self.b2.contains(k),
        ensures
            self.promote_from_b2(k, v).counts_ok(),
            self.promote_from_b2(k, v).ghost_len() == self.ghost_len() - 1,
            self.longterm_count <= self.capacity,
            self.t2.len() + (self.b2.len() - 1) + (self.t1.len() + 1) - self.shortterm_count >= 0,
    {
        lemma_count_short_push(
            self.t1,
            Line { key: k, value: v, reference: false, longterm: true },
        );
        lemma_count_short_bound(self.t1);
        let i = self.b2.index_of(k);
        self.b2.remove_ensures(i);
    }


    /// Setting clock bits or storing values changes no count of lines
    /// without the frequency bit.
    pub proof fn lemma_count_short_same(s: Seq<Line<K, V>>, r: Seq<Line<K, V>>)
        requires
            s.len() == r.len(),
            forall|i: int| 0 <= i < s.len() ==> (#[trigger] s[i]).longterm == r[i].longterm,
        ensures
            count_short(s) == count_short(r),
        decreases s.len(),
    {
        if s.len() > 0 {
            Self::lemma_count_short_same(s.drop_last(), r.drop_last());
        }
    }

    /// A lookup keeps the numbers in order.
    pub proof fn lemma_touch_counts(self, k: K)
        requires
            self.counts_ok(),
        ensures
            self.touch(k).counts_ok(),
            self.touch(k).ghost_len() == self.ghost_len(),
    {
        Self::lemma_count_short_same(self.t1, touched(self.t1, k));
    }

    /// Storing a value keeps the numbers in order.
    pub proof fn lemma_store_counts(self, k: K, v: V)
        requires
            self.counts_ok(),
        ensures
            self.store(k, v).counts_ok(),
            self.store(k, v).ghost_len() == self.ghost_len(),
    {
        Self::lemma_count_short_same(self.t1, stored(self.t1, k, v));
    }

    /// What holds of a cache between operations.
    pub open spec fn inv(self) -> bool {
        &&& self.counts_ok()
        &&& self.ghost_len() <= self.c()
        &&& self.keys_distinct()
    }
}

} // verus!
