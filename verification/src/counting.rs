//! A counter over integer predicates, with the lemmas the board invariants
//! need: how a count reacts to a pointwise change, and how it relates to a
//! sequence of distinct indices.

use vstd::prelude::*;

verus! {

/// Number of integers `k` with `0 <= k < n` satisfying `p(k)`.
pub open spec fn count_upto(p: spec_fn(int) -> bool, n: int) -> int
    decreases n,
{
    if n <= 0 {
        0
    } else {
        count_upto(p, n - 1) + if p(n - 1) {
            1int
        } else {
            0int
        }
    }
}

/// How much of the interval `[lo, hi)` lies strictly below `x`.
pub open spec fn span_below(lo: int, hi: int, x: int) -> int {
    if x <= lo {
        0
    } else if x >= hi {
        hi - lo
    } else {
        x - lo
    }
}

/// A count never leaves `[0, n]`.
pub proof fn lemma_count_bounds(p: spec_fn(int) -> bool, n: int)
    requires
        0 <= n,
    ensures
        0 <= count_upto(p, n) <= n,
    decreases n,
{
    if n > 0 {
        lemma_count_bounds(p, n - 1);
    }
}

/// Pointwise equivalent predicates have equal counts.
pub proof fn lemma_count_equiv(p: spec_fn(int) -> bool, q: spec_fn(int) -> bool, n: int)
    requires
        forall|k: int| 0 <= k < n ==> (#[trigger] p(k) <==> q(k)),
    ensures
        count_upto(p, n) == count_upto(q, n),
    decreases n,
{
    if n > 0 {
        lemma_count_equiv(p, q, n - 1);
    }
}

/// Changing a predicate at one point moves the count by at most one.
pub proof fn lemma_count_update(p: spec_fn(int) -> bool, q: spec_fn(int) -> bool, n: int, j: int)
    requires
        0 <= j < n,
        forall|k: int| 0 <= k < n && k != j ==> (#[trigger] p(k) <==> q(k)),
    ensures
        count_upto(q, n) == count_upto(p, n) + (if q(j) {
            1int
        } else {
            0int
        }) - (if p(j) {
            1int
        } else {
            0int
        }),
    decreases n,
{
    if j == n - 1 {
        lemma_count_equiv(p, q, n - 1);
    } else {
        lemma_count_update(p, q, n - 1, j);
    }
}

/// A count is zero exactly when no point below `n` satisfies the predicate.
pub proof fn lemma_count_zero(p: spec_fn(int) -> bool, n: int)
    requires
        0 <= n,
    ensures
        count_upto(p, n) == 0 <==> (forall|k: int| 0 <= k < n ==> !#[trigger] p(k)),
    decreases n,
{
    if n > 0 {
        lemma_count_zero(p, n - 1);
        lemma_count_bounds(p, n - 1);
    }
}

/// Admitting one extra point `x` raises the count by one when `x` is new.
pub proof fn lemma_count_or_point(p: spec_fn(int) -> bool, q: spec_fn(int) -> bool, n: int, x: int)
    requires
        forall|k: int| 0 <= k < n ==> (#[trigger] q(k) <==> p(k) || k == x),
    ensures
        count_upto(q, n) == count_upto(p, n) + (if 0 <= x < n && !p(x) {
            1int
        } else {
            0int
        }),
    decreases n,
{
    if n > 0 {
        lemma_count_or_point(p, q, n - 1, x);
    }
}

/// The indices listed by a duplicate-free sequence, all below `n`, are counted
/// exactly `s.len()` times.
pub proof fn lemma_count_distinct_seq(s: Seq<usize>, p: spec_fn(int) -> bool, n: int)
    requires
        0 <= n <= usize::MAX as int + 1,
        forall|i: int, j: int| 0 <= i < j < s.len() ==> s[i] != s[j],
        forall|i: int| 0 <= i < s.len() ==> (s[i] as int) < n,
        forall|k: int| 0 <= k < n ==> (#[trigger] p(k) <==> s.contains(k as usize)),
    ensures
        count_upto(p, n) == s.len(),
    decreases s.len(),
{
    if s.len() == 0 {
        assert forall|k: int| 0 <= k < n implies !#[trigger] p(k) by {
            assert(!s.contains(k as usize));
        }
        lemma_count_zero(p, n);
    } else {
        let s0 = s.drop_last();
        let x = s.last();
        let p0 = |k: int| s0.contains(k as usize);
        assert forall|k: int| 0 <= k < n implies (#[trigger] p(k) <==> p0(k) || k == x as int) by {
            assert(s.contains(k as usize) <==> s0.contains(k as usize) || k as usize == x) by {
                if s.contains(k as usize) {
                    let i = choose|i: int| 0 <= i < s.len() && s[i] == k as usize;
                    if i < s.len() - 1 {
                        assert(s0[i] == k as usize);
                    }
                } else {
                    if s0.contains(k as usize) {
                        let i = choose|i: int| 0 <= i < s0.len() && s0[i] == k as usize;
                        assert(s[i] == k as usize);
                    }
                }
            }
        }
        assert(!p0(x as int)) by {
            if s0.contains(x) {
                let i = choose|i: int| 0 <= i < s0.len() && s0[i] == x;
                assert(s[i] == s[s.len() - 1]);
            }
        }
        assert(forall|i: int| 0 <= i < s0.len() ==> s0[i] == s[i]);
        lemma_count_distinct_seq(s0, p0, n);
        lemma_count_or_point(p0, p, n, x as int);
    }
}

} // verus!
