//! The warp butterfly whose order the kernels sum 32 lanes in.
use vstd::prelude::*;
use vstd::std_specs::ops::AddSpec;

verus! {

/// One round of the butterfly: each lane adds its partner `lane ^ off` to its
/// own value.
pub open spec fn exchanged<T: Copy + core::ops::Add<Output = T>>(v: Seq<T>, off: usize) -> Seq<T> {
    Seq::new(32, |l: int| v[l].add_spec(v[((l as usize) ^ off) as int]))
}

/// The lanes after the first `k` rounds, with `off` = 16, 8, 4, 2, 1.
pub open spec fn rounds<T: Copy + core::ops::Add<Output = T>>(v: Seq<T>, k: int) -> Seq<T> {
    let a = exchanged(v, 16);
    let b = exchanged(a, 8);
    let c = exchanged(b, 4);
    let d = exchanged(c, 2);
    if k <= 0 {
        v
    } else if k == 1 {
        a
    } else if k == 2 {
        b
    } else if k == 3 {
        c
    } else if k == 4 {
        d
    } else {
        exchanged(d, 1)
    }
}

/// The distance to a lane's partner in round `k`.
pub open spec fn partner_distance(k: int) -> usize {
    if k <= 0 {
        16
    } else if k == 1 {
        8
    } else if k == 2 {
        4
    } else if k == 3 {
        2
    } else {
        1
    }
}

/// Every sum the butterfly takes is one that the type's addition takes.
pub open spec fn sums_defined<T: Copy + core::ops::Add<Output = T>>(v: Seq<T>) -> bool {
    forall|k: int, l: int|
        0 <= k < 5 && 0 <= l < 32 ==> (#[trigger] rounds(v, k)[l]).add_req(
            rounds(v, k)[((l as usize) ^ partner_distance(k)) as int],
        )
}

/// The type's addition takes every pair of values.
pub open spec fn sums_total<T: Copy + core::ops::Add<Output = T>>() -> bool {
    forall|a: T, b: T| #[trigger] a.add_req(b)
}

/// The xor butterfly a warp's reduction runs over 32 lane values: for `off` =
/// 16, 8, 4, 2, 1 each lane adds its partner `lane ^ off` to its own value.
/// Lane 0's result.
pub fn butterfly<T: Copy + core::ops::Add<Output = T>>(v: [T; 32]) -> (r: T)
    requires
        sums_total::<T>() || (T::obeys_add_spec() && sums_defined(v@)),
    ensures
        T::obeys_add_spec() ==> r == rounds(v@, 5)[0],
{
    let mut lanes: Vec<T> = Vec::new();
    let mut i: usize = 0;
    while i < 32
        invariant
            i <= 32,
            v@.len() == 32,
            lanes@ =~= v@.take(i as int),
        decreases 32 - i,
    {
        lanes.push(v[i]);
        i += 1;
    }
    assert(lanes@ =~= v@);
    let mut k: usize = 0;
    let mut off: usize = 16;
    while k < 5
        invariant
            k <= 5,
            k < 5 ==> off == partner_distance(k as int),
            lanes@.len() == 32,
            v@.len() == 32,
            sums_total::<T>() || (T::obeys_add_spec() && sums_defined(v@)),
            T::obeys_add_spec() ==> lanes@ == rounds(v@, k as int),
        decreases 5 - k,
    {
        let mut next: Vec<T> = Vec::new();
        let mut l: usize = 0;
        while l < 32
            invariant
                l <= 32,
                k < 5,
                off == partner_distance(k as int),
                next@.len() == l,
                lanes@.len() == 32,
                sums_total::<T>() || (T::obeys_add_spec() && sums_defined(v@)),
                T::obeys_add_spec() ==> lanes@ == rounds(v@, k as int),
                T::obeys_add_spec() ==> forall|m: int|
                    0 <= m < l ==> #[trigger] next@[m] == exchanged(lanes@, off)[m],
            decreases 32 - l,
        {
            assert(l < 32 && off <= 16 ==> (l ^ off) < 32) by (bit_vector);
            let partner: usize = l ^ off;
            assert(T::obeys_add_spec() ==> rounds(v@, k as int)[l as int] == lanes@[l as int]);
            let sum: T = lanes[l] + lanes[partner];
            next.push(sum);
            l += 1;
        }
        assert(T::obeys_add_spec() ==> next@ =~= exchanged(lanes@, off));
        assert(T::obeys_add_spec() ==> next@ == rounds(v@, k + 1));
        lanes = next;
        off = off / 2;
        k += 1;
    }
    lanes[0]
}

/// The sum of the first `n` lanes.
pub open spec fn lane_sum(v: Seq<u64>, n: int) -> int
    decreases n,
{
    if n <= 0 {
        0
    } else {
        lane_sum(v, n - 1) + v[n - 1]
    }
}

/// One round leaves in its lower lanes, up to its distance, the sum of twice as
/// many lanes before it.
proof fn lemma_round_halves(v: Seq<u64>, off: usize, n: int)
    requires
        v.len() == 32,
        off == 16 || off == 8 || off == 4 || off == 2 || off == 1,
        0 <= n <= off,
        forall|l: int|
            0 <= l < 32 ==> (#[trigger] v[l]).add_req(v[((l as usize) ^ off) as int]),
    ensures
        lane_sum(exchanged(v, off), n) == lane_sum(v, n) + (lane_sum(v, off + n) - lane_sum(
            v,
            off as int,
        )),
    decreases n,
{
    if n > 0 {
        lemma_round_halves(v, off, n - 1);
        let l: usize = (n - 1) as usize;
        assert((l ^ off) == l + off) by (bit_vector)
            requires
                l < off,
                off == 16 || off == 8 || off == 4 || off == 2 || off == 1,
        ;
        assert(v[l as int].add_req(v[(l ^ off) as int]));
        assert(exchanged(v, off)[l as int] == v[l as int] + v[l + off]);
    }
}

/// Where no sum overflows, lane 0's result is the sum of the 32 lanes.
pub proof fn law_the_butterfly_adds_every_lane(v: Seq<u64>)
    requires
        v.len() == 32,
        sums_defined(v),
    ensures
        rounds(v, 5)[0] == lane_sum(v, 32),
{
    let a = exchanged(v, 16);
    let b = exchanged(a, 8);
    let c = exchanged(b, 4);
    let d = exchanged(c, 2);
    let e = exchanged(d, 1);
    assert(forall|l: int| 0 <= l < 32 ==> rounds(v, 0)[l] == v[l]);
    assert(forall|l: int| 0 <= l < 32 ==> rounds(v, 1)[l] == a[l]);
    assert(forall|l: int| 0 <= l < 32 ==> rounds(v, 2)[l] == b[l]);
    assert(forall|l: int| 0 <= l < 32 ==> rounds(v, 3)[l] == c[l]);
    assert(forall|l: int| 0 <= l < 32 ==> rounds(v, 4)[l] == d[l]);
    lemma_round_halves(v, 16, 16);
    lemma_round_halves(a, 8, 8);
    lemma_round_halves(b, 4, 4);
    lemma_round_halves(c, 2, 2);
    lemma_round_halves(d, 1, 1);
    assert(lane_sum(e, 1) == lane_sum(e, 0) + e[0]);
}

} // verus!
