//! Counting the positions of a range that satisfy a predicate.
use vstd::prelude::*;

verus! {

/// How many `i` in `0..n` satisfy `p`.
pub open spec fn count_where(n: int, p: spec_fn(int) -> bool) -> nat
    decreases n,
{
    if n <= 0 {
        0
    } else if p(n - 1) {
        count_where(n - 1, p) + 1
    } else {
        count_where(n - 1, p)
    }
}

/// A count is at most the length of its range.
pub proof fn lemma_count_bound(n: int, p: spec_fn(int) -> bool)
    requires
        0 <= n,
    ensures
        count_where(n, p) <= n,
    decreases n,
{
    if n > 0 {
        lemma_count_bound(n - 1, p);
    }
}

/// Positions that do not satisfy the predicate add nothing.
pub proof fn lemma_count_skip(m: int, n: int, p: spec_fn(int) -> bool)
    requires
        0 <= m <= n,
        forall|i: int| m <= i < n ==> !#[trigger] p(i),
    ensures
        count_where(n, p) == count_where(m, p),
    decreases n - m,
{
    if m < n {
        assert(!p(n - 1));
        lemma_count_skip(m, n - 1, p);
    }
}

/// A count is the size of the set of the positions it counts.
pub proof fn law_a_count_is_a_sets_size(n: int, p: spec_fn(int) -> bool)
    requires
        0 <= n,
    ensures
        Set::new(|i: int| 0 <= i < n && p(i)).finite(),
        count_where(n, p) == Set::new(|i: int| 0 <= i < n && p(i)).len(),
    decreases n,
{
    let all = Set::new(|i: int| 0 <= i < n && p(i));
    if n == 0 {
        assert(all =~= Set::empty());
    } else {
        law_a_count_is_a_sets_size(n - 1, p);
        let before = Set::new(|i: int| 0 <= i < n - 1 && p(i));
        if p(n - 1) {
            assert(all =~= before.insert(n - 1));
        } else {
            assert(all =~= before);
        }
    }
}

/// Two predicates that agree on a range, each from where it starts, count alike.
pub proof fn lemma_count_shift(
    m: int,
    n: int,
    p: spec_fn(int) -> bool,
    k: int,
    q: spec_fn(int) -> bool,
)
    requires
        0 <= m <= n,
        0 <= k,
        forall|i: int| m <= i < n ==> #[trigger] p(i) == q(i - m + k),
    ensures
        count_where(n, p) - count_where(m, p) == count_where(n - m + k, q) - count_where(k, q),
    decreases n - m,
{
    if m < n {
        lemma_count_shift(m, n - 1, p, k, q);
        assert(p(n - 1) == q(n - 1 - m + k));
    }
}

} // verus!
