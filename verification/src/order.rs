//! Sorting by insertion: what it keeps (order, elements) when each new element goes before
//! the first one it precedes.
use vstd::prelude::*;

verus! {

/// No element of `s` goes before an earlier one.
pub open spec fn sorted_by<T>(s: Seq<T>, before: spec_fn(T, T) -> bool) -> bool {
    forall|i: int, j: int| 0 <= i < j < s.len() ==> !before(#[trigger] s[j], #[trigger] s[i])
}

/// `before` is a strict order: never reflexive, and transitive.
pub open spec fn strict_order<T>(before: spec_fn(T, T) -> bool) -> bool {
    &&& forall|a: T| !#[trigger] before(a, a)
    &&& forall|a: T, b: T, c: T| #[trigger] before(a, b) && #[trigger] before(b, c) ==> before(a, c)
}

/// Putting `x` into the sorted `s` just before the first element that it goes before keeps
/// `s` sorted, and adds `x` to its elements.
pub proof fn lemma_insert_sorted<T>(s: Seq<T>, x: T, p: int, before: spec_fn(T, T) -> bool)
    requires
        0 <= p <= s.len(),
        sorted_by(s, before),
        strict_order(before),
        forall|k: int| 0 <= k < p ==> !before(x, #[trigger] s[k]),
        p < s.len() ==> before(x, s[p]),
    ensures
        sorted_by(s.insert(p, x), before),
        s.insert(p, x).to_multiset() == s.to_multiset().insert(x),
        s.insert(p, x).len() == s.len() + 1,
{
    let t = s.insert(p, x);
    assert forall|i: int, j: int| 0 <= i < j < t.len() implies !before(#[trigger] t[j], #[trigger] t[i]) by {
        if j < p {
            assert(t[i] == s[i] && t[j] == s[j]);
        } else if j == p {
            assert(t[i] == s[i]);
        } else if i < p {
            assert(t[i] == s[i] && t[j] == s[j - 1]);
        } else if i == p {
            assert(t[j] == s[j - 1]);
            if before(s[j - 1], x) {
                assert(before(x, s[p]));
                assert(before(s[j - 1], s[p]));
                if j - 1 == p {
                    assert(!before(s[p], s[p]));
                }
            }
        } else {
            assert(t[i] == s[i - 1] && t[j] == s[j - 1]);
        }
    }
    broadcast use vstd::seq_lib::group_to_multiset_ensures;
    assert(t.remove(p) =~= s);
    assert(t[p] == x);
    assert(s.to_multiset() =~= t.to_multiset().remove(x));
    assert(t.to_multiset().count(x) > 0) by {
        assert(t.contains(x));
    }
    assert(t.to_multiset() =~= s.to_multiset().insert(x));
}

} // verus!
