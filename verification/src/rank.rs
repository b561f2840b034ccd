//! The first of a list in falling order, the earlier of two as large first.
use vstd::prelude::*;

verus! {

/// Index `x` comes before index `y`: the larger key first, the lower index of
/// two as large.
pub open spec fn comes_before(p: Seq<i64>, x: int, y: int) -> bool {
    p[x] > p[y] || (p[x] == p[y] && x < y)
}

/// The first `k` indices in that order.
pub open spec fn is_top(ids: Seq<usize>, p: Seq<i64>, k: int) -> bool {
    &&& ids.len() == k
    &&& forall|a: int| 0 <= a < k ==> (#[trigger] ids[a]) < p.len()
    &&& forall|a: int, b: int|
        0 <= a < b < k ==> comes_before(p, #[trigger] ids[a] as int, #[trigger] ids[b] as int)
    &&& forall|x: int|
        #![trigger p[x]]
        0 <= x < p.len() ==> among(ids, x) || forall|a: int|
            0 <= a < k ==> comes_before(p, #[trigger] ids[a] as int, x)
}

/// An index is in a list.
pub open spec fn among(ids: Seq<usize>, x: int) -> bool {
    exists|a: int| 0 <= a < ids.len() && #[trigger] ids[a] == x
}

/// Whether index `x` comes before index `y`.
fn precedes(p: &[i64], x: usize, y: usize) -> (r: bool)
    requires
        x < p@.len(),
        y < p@.len(),
    ensures
        r == comes_before(p@, x as int, y as int),
{
    p[x] > p[y] || (p[x] == p[y] && x < y)
}

/// Index `x` comes after `last`; every one does where there is none.
spec fn comes_after(p: Seq<i64>, last: Option<usize>, x: int) -> bool {
    match last {
        Some(l) => comes_before(p, l as int, x),
        None => true,
    }
}

/// The first of the indices that come after `last`, if any does.
fn next_after(p: &[i64], last: Option<usize>) -> (r: Option<usize>)
    requires
        last matches Some(l) ==> l < p@.len(),
    ensures
        match r {
            Some(i) => i < p@.len() && comes_after(p@, last, i as int) && forall|x: int|
                0 <= x < p@.len() && #[trigger] comes_after(p@, last, x) ==> x == i
                    || comes_before(p@, i as int, x),
            None => forall|x: int| 0 <= x < p@.len() ==> !#[trigger] comes_after(p@, last, x),
        },
{
    let mut best: Option<usize> = None;
    let mut i: usize = 0;
    while i < p.len()
        invariant
            i <= p@.len(),
            last matches Some(l) ==> l < p@.len(),
            match best {
                Some(b) => b < i && comes_after(p@, last, b as int) && forall|x: int|
                    0 <= x < i && #[trigger] comes_after(p@, last, x) ==> x == b || comes_before(
                        p@,
                        b as int,
                        x,
                    ),
                None => forall|x: int| 0 <= x < i ==> !#[trigger] comes_after(p@, last, x),
            },
        decreases p@.len() - i,
    {
        let eligible: bool = match last {
            Some(l) => precedes(p, l, i),
            None => true,
        };
        assert(eligible == comes_after(p@, last, i as int));
        if eligible {
            let takes: bool = match best {
                Some(b) => precedes(p, i, b),
                None => true,
            };
            if takes {
                best = Some(i);
            }
        }
        i += 1;
    }
    best
}

/// A list that holds every index below `n` is as long as that.
proof fn lemma_all_ids(ids: Seq<usize>, n: int)
    requires
        0 <= n,
        forall|x: int| 0 <= x < n ==> #[trigger] among(ids, x),
    ensures
        ids.len() >= n,
    decreases n,
{
    let s = ids.map_values(|v: usize| v as int);
    vstd::set_lib::lemma_int_range(0, n);
    let range = vstd::set_lib::set_int_range(0, n);
    assert forall|x: int| range.contains(x) implies s.to_set().contains(x) by {
        assert(among(ids, x));
        let a = choose|a: int| 0 <= a < ids.len() && #[trigger] ids[a] == x;
        assert(s[a] == x);
    }
    s.lemma_cardinality_of_set();
    vstd::set_lib::lemma_len_subset(range, s.to_set());
}

/// The indices of the `k` largest keys: the largest first, the lowest index
/// first of those as large.
pub fn top(p: &[i64], k: usize) -> (r: Vec<usize>)
    requires
        k <= p@.len(),
    ensures
        is_top(r@, p@, k as int),
{
    let mut ids: Vec<usize> = Vec::new();
    let mut last: Option<usize> = None;
    while ids.len() < k
        invariant
            k <= p@.len(),
            ids@.len() <= k,
            is_top(ids@, p@, ids@.len() as int),
            match last {
                Some(l) => ids@.len() > 0 && ids@.last() == l && l < p@.len(),
                None => ids@.len() == 0,
            },
        decreases k - ids@.len(),
    {
        let ghost held = ids@;
        match next_after(p, last) {
            Some(i) => {
                ids.push(i);
                proof {
                    let n = held.len() as int;
                    assert forall|a: int, b: int| 0 <= a < b < n + 1 implies comes_before(
                        p@,
                        #[trigger] ids@[a] as int,
                        #[trigger] ids@[b] as int,
                    ) by {
                        if b == n {
                            assert(ids@[a] == held[a]);
                            assert(held[n - 1] == held.last());
                            if a < n - 1 {
                                assert(comes_before(p@, held[a] as int, held[n - 1] as int));
                            }
                        } else {
                            assert(ids@[a] == held[a] && ids@[b] == held[b]);
                        }
                    }
                    assert forall|x: int| #![trigger p@[x]] 0 <= x < p@.len() implies among(
                        ids@,
                        x,
                    ) || forall|a: int|
                        0 <= a < n + 1 ==> comes_before(p@, #[trigger] ids@[a] as int, x) by {
                        if among(held, x) {
                            let a = choose|a: int| 0 <= a < held.len() && #[trigger] held[a] == x;
                            assert(ids@[a] == x);
                        } else if x == i {
                            assert(ids@[n] == x);
                        } else {
                            assert forall|a: int| 0 <= a < n + 1 implies comes_before(
                                p@,
                                #[trigger] ids@[a] as int,
                                x,
                            ) by {
                                if a < n {
                                    assert(ids@[a] == held[a]);
                                } else {
                                    assert(n > 0 ==> comes_before(p@, held[n - 1] as int, x));
                                    assert(comes_after(p@, last, x));
                                }
                            }
                        }
                    }
                }
                last = Some(i);
            },
            None => {
                proof {
                    assert forall|x: int| 0 <= x < p@.len() implies #[trigger] among(held, x) by {
                        let at = p@[x];
                        if !among(held, x) {
                            assert(held.len() > 0 ==> comes_before(
                                p@,
                                held[held.len() - 1] as int,
                                x,
                            ));
                            assert(comes_after(p@, last, x));
                        }
                    }
                    lemma_all_ids(held, p@.len() as int);
                }
                return ids;
            },
        }
    }
    ids
}

/// No index is listed twice, and no key is larger than the one listed first.
pub proof fn law_the_top_is_the_largest(ids: Seq<usize>, p: Seq<i64>, k: int, a: int, x: int)
    requires
        is_top(ids, p, k),
        0 <= a < k,
        0 <= x < p.len(),
    ensures
        forall|b: int| 0 <= b < k && b != a ==> ids[a] != #[trigger] ids[b],
        p[ids[0] as int] >= p[x],
{
    assert forall|b: int| 0 <= b < k && b != a implies ids[a] != #[trigger] ids[b] by {
        if a < b {
            assert(comes_before(p, ids[a] as int, ids[b] as int));
        } else {
            assert(comes_before(p, ids[b] as int, ids[a] as int));
        }
    }
    let at = p[x];
    if among(ids, x) {
        let b = choose|b: int| 0 <= b < ids.len() && #[trigger] ids[b] == x;
        if b > 0 {
            assert(comes_before(p, ids[0] as int, ids[b] as int));
        }
    } else {
        assert(comes_before(p, ids[0] as int, x));
    }
}

/// What is chosen comes in falling order, the lower id first of two as large; and
/// what is left out comes behind all of it: it is smaller than the least chosen,
/// or as large with a higher id.
pub proof fn law_the_top_comes_in_order(ids: Seq<usize>, p: Seq<i64>, k: int, a: int, b: int, x: int)
    requires
        is_top(ids, p, k),
        0 <= a < b < k,
        0 <= x < p.len(),
    ensures
        ids.len() == k,
        p[ids[a] as int] > p[ids[b] as int] || (p[ids[a] as int] == p[ids[b] as int] && ids[a]
            < ids[b]),
        (forall|c: int| 0 <= c < k ==> #[trigger] ids[c] != x) ==> p[ids[b] as int] > p[x] || (
        p[ids[b] as int] == p[x] && ids[b] < x),
{
    assert(comes_before(p, ids[a] as int, ids[b] as int));
    if forall|c: int| 0 <= c < k ==> #[trigger] ids[c] != x {
        assert(!among(ids, x));
        let q = p[x];
        assert(comes_before(p, ids[b] as int, x));
    }
}

} // verus!
