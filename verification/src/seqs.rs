//! What a sequence contains after a push, without its first element, and
//! without the element at an index.

use vstd::prelude::*;

verus! {

/// What a sequence contains after a push.
pub proof fn lemma_push_contains<A>(s: Seq<A>, x: A)
    ensures
        forall|t: A| #[trigger] s.push(x).contains(t) <==> s.contains(t) || t == x,
        s.no_duplicates() && !s.contains(x) ==> s.push(x).no_duplicates(),
{
    let r = s.push(x);
    assert forall|t: A| #[trigger] r.contains(t) <==> s.contains(t) || t == x by {
        if s.contains(t) {
            let i = choose|i: int| 0 <= i < s.len() && s[i] == t;
            assert(r[i] == t);
        }
        if t == x {
            assert(r[s.len() as int] == t);
        }
        if r.contains(t) {
            let i = choose|i: int| 0 <= i < r.len() && r[i] == t;
            if i < s.len() {
                assert(s[i] == t);
            }
        }
    }
}

/// What a duplicate-free sequence contains without its first element.
pub proof fn lemma_drop_first_contains<A>(s: Seq<A>)
    requires
        s.len() > 0,
        s.no_duplicates(),
    ensures
        forall|t: A| #[trigger] s.drop_first().contains(t) <==> s.contains(t) && t != s[0],
        s.drop_first().no_duplicates(),
        s.contains(s[0]),
{
    let r = s.drop_first();
    assert forall|t: A| #[trigger] r.contains(t) <==> s.contains(t) && t != s[0] by {
        if s.contains(t) && t != s[0] {
            let i = choose|i: int| 0 <= i < s.len() && s[i] == t;
            assert(r[i - 1] == t);
        }
        if r.contains(t) {
            let i = choose|i: int| 0 <= i < r.len() && r[i] == t;
            assert(s[i + 1] == t);
        }
    }
}

/// What a duplicate-free sequence contains without the element at `i`.
pub proof fn lemma_remove_contains<A>(s: Seq<A>, i: int)
    requires
        0 <= i < s.len(),
        s.no_duplicates(),
    ensures
        forall|t: A| #[trigger] s.remove(i).contains(t) <==> s.contains(t) && t != s[i],
        s.remove(i).no_duplicates(),
{
    let r = s.remove(i);
    s.remove_ensures(i);
    assert forall|t: A| #[trigger] r.contains(t) <==> s.contains(t) && t != s[i] by {
        if s.contains(t) && t != s[i] {
            let j = choose|j: int| 0 <= j < s.len() && s[j] == t;
            if j < i {
                assert(r[j] == t);
            } else {
                assert(r[j - 1] == t);
            }
        }
        if r.contains(t) {
            let j = choose|j: int| 0 <= j < r.len() && r[j] == t;
            if j < i {
                assert(s[j] == t);
            } else {
                assert(s[j + 1] == t);
            }
        }
    }
}

} // verus!
