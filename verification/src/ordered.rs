//! Ascending enumeration of a finite set of indices: the order in which the
//! iterators return them.
use vstd::prelude::*;

verus! {

/// The smallest element of `s` (arbitrary when `s` has none).
#[verifier::opaque]
pub open spec fn least(s: Set<int>) -> int {
    choose|x: int| s.contains(x) && forall|y: int| #[trigger] s.contains(y) ==> x <= y
}

/// The elements of `s` greater than `x`.
pub open spec fn after(s: Set<int>, x: int) -> Set<int> {
    s.filter(|k: int| k > x)
}

/// Each element is smaller than every later one.
pub open spec fn strictly_increasing(q: Seq<int>) -> bool {
    forall|i: int, j: int| 0 <= i < j < q.len() ==> #[trigger] q[i] < #[trigger] q[j]
}

/// The elements of a finite set, smallest first.
pub open spec fn ascending(s: Set<int>) -> Seq<int>
    decreases s.len(),
    when s.finite()
{
    if s.len() > 0 && s.contains(least(s)) {
        seq![least(s)] + ascending(s.remove(least(s)))
    } else {
        Seq::empty()
    }
}

/// A finite non-empty set of integers has a smallest element.
pub proof fn lemma_least(s: Set<int>)
    requires
        s.finite(),
        s.len() > 0,
    ensures
        s.contains(least(s)),
        forall|y: int| #[trigger] s.contains(y) ==> least(s) <= y,
    decreases s.len(),
{
    reveal(least);
    let x = s.choose();
    assert(s.contains(x));
    let rest = s.remove(x);
    if rest.len() == 0 {
        assert forall|y: int| #[trigger] s.contains(y) implies x <= y by {
            if y != x {
                assert(rest.contains(y));
            }
        }
    } else {
        lemma_least(rest);
        let m = least(rest);
        let w = if x < m { x } else { m };
        assert forall|y: int| #[trigger] s.contains(y) implies w <= y by {
            if y != x {
                assert(rest.contains(y));
            }
        }
        assert(s.contains(w));
    }
}

/// Popping the smallest element: `ascending(s)` starts with `m` and goes on
/// with the rest of `s`.
pub proof fn lemma_ascending_pop(s: Set<int>, m: int)
    requires
        s.finite(),
        s.contains(m),
        forall|y: int| #[trigger] s.contains(y) ==> m <= y,
    ensures
        ascending(s) == seq![m] + ascending(s.remove(m)),
{
    lemma_least(s);
    assert(least(s) <= m && m <= least(s));
}

/// The ascending enumeration of a finite set is strictly increasing and has
/// exactly the set's elements, each once.
pub proof fn lemma_ascending(s: Set<int>)
    requires
        s.finite(),
    ensures
        ascending(s).len() == s.len(),
        strictly_increasing(ascending(s)),
        forall|k: int| 0 <= k < ascending(s).len() ==> s.contains(#[trigger] ascending(s)[k]),
        forall|x: int| #[trigger] s.contains(x) ==> ascending(s).contains(x),
    decreases s.len(),
{
    if s.len() > 0 {
        lemma_least(s);
        let m = least(s);
        let rest = s.remove(m);
        lemma_ascending(rest);
        let q = ascending(s);
        let t = ascending(rest);
        assert(q == seq![m] + t);
        assert forall|k: int| 0 <= k < q.len() implies s.contains(#[trigger] q[k]) by {
            if k > 0 {
                assert(q[k] == t[k - 1]);
                assert(rest.contains(t[k - 1]));
            }
        }
        assert forall|i: int, j: int| 0 <= i < j < q.len() implies #[trigger] q[i] < #[trigger] q[j] by {
            assert(q[j] == t[j - 1]);
            assert(rest.contains(t[j - 1]));
            if i > 0 {
                assert(q[i] == t[i - 1]);
            } else {
                assert(q[i] == m);
                assert(s.contains(q[j]) && q[j] != m);
            }
        }
        assert forall|x: int| #[trigger] s.contains(x) implies q.contains(x) by {
            if x == m {
                assert(q[0] == x);
            } else {
                assert(rest.contains(x));
                let k = choose|k: int| 0 <= k < t.len() && t[k] == x;
                assert(q[k + 1] == x);
            }
        }
    } else {
        assert(ascending(s) == Seq::<int>::empty());
    }
}

/// When every element of `a` is smaller than every element of `b`, the
/// ascending enumeration of both is that of `a` followed by that of `b`.
pub proof fn lemma_ascending_concat(a: Set<int>, b: Set<int>)
    requires
        a.finite(),
        b.finite(),
        forall|x: int, y: int| #[trigger] a.contains(x) && #[trigger] b.contains(y) ==> x < y,
    ensures
        ascending(a.union(b)) == ascending(a) + ascending(b),
    decreases a.len(),
{
    let u = a.union(b);
    if a.len() == 0 {
        assert(u =~= b);
        assert(ascending(a) == Seq::<int>::empty());
        assert(Seq::<int>::empty() + ascending(b) =~= ascending(b));
    } else {
        lemma_least(a);
        let m = least(a);
        let ra = a.remove(m);
        assert forall|x: int, y: int| #[trigger] ra.contains(x) && #[trigger] b.contains(y) implies x < y by {
            assert(a.contains(x));
        }
        lemma_ascending_concat(ra, b);
        assert(u.remove(m) =~= ra.union(b));
        assert forall|y: int| #[trigger] u.contains(y) implies m <= y by {
            if b.contains(y) {
                assert(a.contains(m));
            }
        }
        lemma_ascending_pop(u, m);
        lemma_ascending_pop(a, m);
        assert(seq![m] + (ascending(ra) + ascending(b)) =~= (seq![m] + ascending(ra)) + ascending(b));
    }
}

/// The order of calls that the traversals allow: when each element of `s`
/// is taken exactly once, and an element only once every smaller element of
/// `s` was taken before it, the elements are taken in ascending order.
pub proof fn lemma_taken_in_order(s: Set<int>, q: Seq<int>)
    requires
        s.finite(),
        q.len() == s.len(),
        q.no_duplicates(),
        forall|k: int| 0 <= k < q.len() ==> s.contains(#[trigger] q[k]),
        forall|k: int, j: int| 0 <= k < q.len() && #[trigger] s.contains(j) && j < #[trigger] q[k]
            ==> exists|m: int| 0 <= m < k && q[m] == j,
    ensures
        q == ascending(s),
    decreases q.len(),
{
    if q.len() == 0 {
        assert(ascending(s) == Seq::<int>::empty());
    } else {
        let m0 = q[0];
        assert(s.contains(m0));
        assert forall|y: int| #[trigger] s.contains(y) implies m0 <= y by {
            if y < m0 {
                assert(s.contains(y) && y < q[0]);
            }
        }
        lemma_ascending_pop(s, m0);
        let rest = s.remove(m0);
        let t = q.drop_first();
        assert(t.no_duplicates()) by {
            assert forall|a: int, b: int| 0 <= a < t.len() && 0 <= b < t.len() && a != b implies t[a] != t[b] by {
                assert(t[a] == q[a + 1] && t[b] == q[b + 1]);
            }
        }
        assert forall|k: int| 0 <= k < t.len() implies rest.contains(#[trigger] t[k]) by {
            assert(t[k] == q[k + 1]);
            assert(q[k + 1] != q[0]);
            assert(s.contains(q[k + 1]));
        }
        assert forall|k: int, j: int| 0 <= k < t.len() && #[trigger] rest.contains(j) && j < #[trigger] t[k]
            implies exists|m: int| 0 <= m < k && t[m] == j by {
            assert(t[k] == q[k + 1]);
            assert(s.contains(j) && j < q[k + 1]);
            let m = choose|m: int| 0 <= m < k + 1 && q[m] == j;
            assert(m != 0);
            assert(t[m - 1] == j);
        }
        assert(rest.len() == s.len() - 1);
        lemma_taken_in_order(rest, t);
        assert(q =~= seq![m0] + t);
    }
}

} // verus!
