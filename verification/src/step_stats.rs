//! A run's counters, read after every generated step: each step's share and the
//! summary over the steps that count. Times are nanoseconds.
use crate::text;
use crate::text::decimal;
use vstd::prelude::*;

verus! {

/// The counters one read takes: the host tier's since load, the launches', the
/// engram rows' since load, the process's page faults since start, and the
/// card's free device bytes now.
#[derive(Clone, Copy, Debug, PartialEq, Eq, Structural)]
pub struct Probe {
    pub served: u64,
    pub leg_ns: u64,
    pub straggle_ns: u64,
    /// The worst single service since load.
    pub straggle_max_ns: u64,
    pub host_slots: u64,
    pub overlap_slots: u64,
    pub pair_row1_slots: u64,
    pub go_early: u64,
    pub parks: u64,
    pub go_early_first: u64,
    pub first_serve_lag_ns: u64,
    pub launch_ns: u64,
    pub wake_ns: u64,
    pub eng_warm: u64,
    pub eng_cold: u64,
    pub eng_direct: u64,
    pub eng_wait_ns: u64,
    pub eng_helper_ns: u64,
    pub eng_classify_ns: u64,
    pub majflt: u64,
    pub minflt: u64,
    pub vram_free: u64,
}

/// One step's share of the counters: the difference of the reads around it. A
/// maximum and the free bytes have none: they are the read after the step.
#[derive(Clone, Copy, Debug, PartialEq, Eq, Structural)]
pub struct StepStat {
    pub served: u64,
    pub leg_ns: u64,
    pub straggle_ns: u64,
    pub straggle_max_ns: u64,
    pub host_slots: u64,
    /// Host slots of a two-row pass's row 1 that row 0 also sent to the host.
    pub overlap: u64,
    /// Row 1's host slots.
    pub row1: u64,
    /// The distinct host slots of the step's rows.
    pub union: u64,
    pub go_early: u64,
    pub parks: u64,
    pub go_early_first: u64,
    pub first_serve_lag_ns: u64,
    pub launch_ns: u64,
    pub wake_ns: u64,
    pub eng_warm: u64,
    pub eng_cold: u64,
    pub eng_direct: u64,
    pub eng_wait_ns: u64,
    pub eng_helper_ns: u64,
    pub eng_classify_ns: u64,
    pub majflt: u64,
    pub minflt: u64,
    pub vram_free: u64,
}

/// Every counter of `p` is at most that of `q`, and no more slots overlap than
/// there are.
pub open spec fn rises(p: Probe, q: Probe) -> bool {
    &&& p.served <= q.served
    &&& p.leg_ns <= q.leg_ns
    &&& p.straggle_ns <= q.straggle_ns
    &&& p.host_slots <= q.host_slots
    &&& p.overlap_slots <= q.overlap_slots
    &&& q.overlap_slots - p.overlap_slots <= q.host_slots - p.host_slots
    &&& p.pair_row1_slots <= q.pair_row1_slots
    &&& p.go_early <= q.go_early
    &&& p.parks <= q.parks
    &&& p.go_early_first <= q.go_early_first
    &&& p.first_serve_lag_ns <= q.first_serve_lag_ns
    &&& p.launch_ns <= q.launch_ns
    &&& p.wake_ns <= q.wake_ns
    &&& p.eng_warm <= q.eng_warm
    &&& p.eng_cold <= q.eng_cold
    &&& p.eng_direct <= q.eng_direct
    &&& p.eng_wait_ns <= q.eng_wait_ns
    &&& p.eng_helper_ns <= q.eng_helper_ns
    &&& p.eng_classify_ns <= q.eng_classify_ns
    &&& p.majflt <= q.majflt
    &&& p.minflt <= q.minflt
}

/// The step between two reads.
pub open spec fn step_of(p: Probe, q: Probe) -> StepStat {
    StepStat {
        served: (q.served - p.served) as u64,
        leg_ns: (q.leg_ns - p.leg_ns) as u64,
        straggle_ns: (q.straggle_ns - p.straggle_ns) as u64,
        straggle_max_ns: q.straggle_max_ns,
        host_slots: (q.host_slots - p.host_slots) as u64,
        overlap: (q.overlap_slots - p.overlap_slots) as u64,
        row1: (q.pair_row1_slots - p.pair_row1_slots) as u64,
        union: ((q.host_slots - p.host_slots) - (q.overlap_slots - p.overlap_slots)) as u64,
        go_early: (q.go_early - p.go_early) as u64,
        parks: (q.parks - p.parks) as u64,
        go_early_first: (q.go_early_first - p.go_early_first) as u64,
        first_serve_lag_ns: (q.first_serve_lag_ns - p.first_serve_lag_ns) as u64,
        launch_ns: (q.launch_ns - p.launch_ns) as u64,
        wake_ns: (q.wake_ns - p.wake_ns) as u64,
        eng_warm: (q.eng_warm - p.eng_warm) as u64,
        eng_cold: (q.eng_cold - p.eng_cold) as u64,
        eng_direct: (q.eng_direct - p.eng_direct) as u64,
        eng_wait_ns: (q.eng_wait_ns - p.eng_wait_ns) as u64,
        eng_helper_ns: (q.eng_helper_ns - p.eng_helper_ns) as u64,
        eng_classify_ns: (q.eng_classify_ns - p.eng_classify_ns) as u64,
        majflt: (q.majflt - p.majflt) as u64,
        minflt: (q.minflt - p.minflt) as u64,
        vram_free: q.vram_free,
    }
}

/// The counters rise from each read to the next.
pub open spec fn all_rise(probes: Seq<Probe>) -> bool {
    forall|i: int, j: int|
        0 <= i && j == i + 1 && j < probes.len() ==> rises(
            #[trigger] probes[i],
            #[trigger] probes[j],
        )
}

/// The step between two reads.
fn step_between(p: &Probe, q: &Probe) -> (r: StepStat)
    requires
        rises(*p, *q),
    ensures
        r == step_of(*p, *q),
{
    let host_slots: u64 = q.host_slots - p.host_slots;
    let overlap: u64 = q.overlap_slots - p.overlap_slots;
    StepStat {
        served: q.served - p.served,
        leg_ns: q.leg_ns - p.leg_ns,
        straggle_ns: q.straggle_ns - p.straggle_ns,
        straggle_max_ns: q.straggle_max_ns,
        host_slots,
        overlap,
        row1: q.pair_row1_slots - p.pair_row1_slots,
        union: host_slots - overlap,
        go_early: q.go_early - p.go_early,
        parks: q.parks - p.parks,
        go_early_first: q.go_early_first - p.go_early_first,
        first_serve_lag_ns: q.first_serve_lag_ns - p.first_serve_lag_ns,
        launch_ns: q.launch_ns - p.launch_ns,
        wake_ns: q.wake_ns - p.wake_ns,
        eng_warm: q.eng_warm - p.eng_warm,
        eng_cold: q.eng_cold - p.eng_cold,
        eng_direct: q.eng_direct - p.eng_direct,
        eng_wait_ns: q.eng_wait_ns - p.eng_wait_ns,
        eng_helper_ns: q.eng_helper_ns - p.eng_helper_ns,
        eng_classify_ns: q.eng_classify_ns - p.eng_classify_ns,
        majflt: q.majflt - p.majflt,
        minflt: q.minflt - p.minflt,
        vram_free: q.vram_free,
    }
}

/// The steps of a run: one read before the first generated step, one after
/// each.
pub fn steps(probes: &[Probe]) -> (r: Vec<StepStat>)
    requires
        all_rise(probes@),
    ensures
        r@.len() == (if probes@.len() == 0 {
            0
        } else {
            probes@.len() - 1
        }),
        forall|k: int| 0 <= k < r@.len() ==> #[trigger] r@[k] == step_of(probes@[k], probes@[k + 1]),
{
    let mut out: Vec<StepStat> = Vec::new();
    let mut i: usize = 1;
    while i < probes.len()
        invariant
            1 <= i,
            probes@.len() > 0 ==> i <= probes@.len(),
            probes@.len() == 0 ==> i == 1,
            all_rise(probes@),
            out@.len() == i - 1,
            forall|k: int|
                0 <= k < out@.len() ==> #[trigger] out@[k] == step_of(probes@[k], probes@[k + 1]),
        decreases probes@.len() - i,
    {
        assert(rises(probes@[i - 1], probes@[i as int]));
        out.push(step_between(&probes[i - 1], &probes[i]));
        i += 1;
    }
    out
}

/// Reads sum back up: the steps' services are what was served between the first
/// read and the last.
pub proof fn law_steps_add_up(probes: Seq<Probe>, n: int)
    requires
        all_rise(probes),
        0 <= n < probes.len(),
    ensures
        served_sum(probes, n) == probes[n].served - probes[0].served,
    decreases n,
{
    if n > 0 {
        law_steps_add_up(probes, n - 1);
        assert(rises(probes[n - 1], probes[n]));
    }
}

/// The services of the first `n` steps.
pub open spec fn served_sum(probes: Seq<Probe>, n: int) -> int
    decreases n,
{
    if n <= 0 {
        0
    } else {
        served_sum(probes, n - 1) + step_of(probes[n - 1], probes[n]).served
    }
}

// ------------------------------------------------------------ the summary

/// What a run's steps come to, past the warm-up. The sums are over the kept
/// steps; `leg_p50_ns` and `wait_p50_ns` the upper medians.
#[derive(Clone, Copy, Debug, PartialEq, Eq, Structural)]
pub struct Summary {
    pub steps: usize,
    pub leg_sum_ns: u128,
    pub leg_p50_ns: u64,
    pub straggle_max_ns: u64,
    pub host_slots: u128,
    pub overlap: u128,
    pub row1: u128,
    pub majflt: u128,
    pub minflt: u128,
    pub vram_free_load: u64,
    pub vram_free_min: u64,
    pub eng_warm: u128,
    pub eng_cold: u128,
    pub eng_direct: u128,
    pub wait_sum_ns: u128,
    pub wait_p50_ns: u64,
    pub wait_max_ns: u64,
    pub eng_helper_ns: u128,
    pub eng_classify_ns: u128,
    pub go_early_first: u128,
    pub launch_ns: u128,
    pub first_serve_lag_ns: u128,
    pub wake_ns: u128,
}

/// The sum of a field over steps.
pub open spec fn sum_of(v: Seq<StepStat>, f: spec_fn(StepStat) -> u64) -> int
    decreases v.len(),
{
    if v.len() == 0 {
        0
    } else {
        sum_of(v.drop_last(), f) + f(v.last())
    }
}

/// The largest of a field over steps, 0 of none.
pub open spec fn max_of(v: Seq<StepStat>, f: spec_fn(StepStat) -> u64) -> u64
    decreases v.len(),
{
    if v.len() == 0 {
        0
    } else {
        let before = max_of(v.drop_last(), f);
        if f(v.last()) > before {
            f(v.last())
        } else {
            before
        }
    }
}

/// The least free bytes over steps.
pub open spec fn min_free(v: Seq<StepStat>) -> u64
    decreases v.len(),
{
    if v.len() == 0 {
        u64::MAX
    } else {
        let before = min_free(v.drop_last());
        if v.last().vram_free < before {
            v.last().vram_free
        } else {
            before
        }
    }
}

/// A value is the median of a list: the middle of the list put in order, the
/// upper of two.
pub open spec fn is_median(m: u64, v: Seq<u64>) -> bool {
    exists|s: Seq<u64>|
        #![trigger ascends(s)]
        ascends(s) && s.to_multiset() == v.to_multiset() && s.len() == v.len() && m == s[s.len()
            as int / 2]
}

/// Ascending.
pub open spec fn ascends(v: Seq<u64>) -> bool {
    forall|a: int, b: int| 0 <= a <= b < v.len() ==> v[a] <= v[b]
}

/// A field of steps.
pub open spec fn field(v: Seq<StepStat>, f: spec_fn(StepStat) -> u64) -> Seq<u64> {
    v.map_values(f)
}

/// Adds a value to an ascending list.
fn insert_ascending(v: &mut Vec<u64>, x: u64)
    requires
        ascends(old(v)@),
    ensures
        ascends(final(v)@),
        final(v)@.to_multiset() == old(v)@.to_multiset().insert(x),
        final(v)@.len() == old(v)@.len() + 1,
{
    let mut at: usize = v.len();
    while at > 0 && v[at - 1] > x
        invariant
            at <= v@.len(),
            v@ == old(v)@,
            ascends(v@),
            forall|k: int| at <= k < v@.len() ==> v@[k] > x,
        decreases at,
    {
        at -= 1;
    }
    proof {
        vstd::seq_lib::to_multiset_insert(v@, at as int, x);
    }
    let ghost held = v@;
    v.insert(at, x);
    assert(v@ == held.insert(at as int, x));
    proof {
        assert forall|a: int, b: int| 0 <= a <= b < v@.len() implies v@[a] <= v@[b] by {
            if a < at && b > at {
                assert(held[a] <= held[b - 1]);
            } else if a < at && b == at {
                assert(held[a] <= held[at - 1]);
            }
        }
    }
}

/// The values of a list, ascending.
fn ascending(v: &Vec<u64>) -> (r: Vec<u64>)
    ensures
        ascends(r@),
        r@.to_multiset() == v@.to_multiset(),
        r@.len() == v@.len(),
{
    let mut out: Vec<u64> = Vec::new();
    let mut i: usize = 0;
    assert(v@.take(0) =~= Seq::<u64>::empty());
    assert(out@ =~= Seq::<u64>::empty());
    while i < v.len()
        invariant
            i <= v@.len(),
            out@.len() == i,
            ascends(out@),
            out@.to_multiset() == v@.take(i as int).to_multiset(),
        decreases v@.len() - i,
    {
        proof {
            assert(v@.take(i + 1) =~= v@.take(i as int).push(v@[i as int]));
            vstd::seq_lib::to_multiset_build(v@.take(i as int), v@[i as int]);
        }
        insert_ascending(&mut out, v[i]);
        i += 1;
    }
    assert(v@.take(v@.len() as int) =~= v@);
    out
}

/// The summary is that of the kept steps.
pub open spec fn sums_up(s: Summary, kept: Seq<StepStat>, first: Probe) -> bool {
    &&& s.steps == kept.len()
    &&& s.leg_sum_ns == sum_of(kept, |x: StepStat| x.leg_ns)
    &&& is_median(s.leg_p50_ns, field(kept, |x: StepStat| x.leg_ns))
    &&& s.straggle_max_ns == max_of(kept, |x: StepStat| x.straggle_ns)
    &&& s.host_slots == sum_of(kept, |x: StepStat| x.host_slots)
    &&& s.overlap == sum_of(kept, |x: StepStat| x.overlap)
    &&& s.row1 == sum_of(kept, |x: StepStat| x.row1)
    &&& s.majflt == sum_of(kept, |x: StepStat| x.majflt)
    &&& s.minflt == sum_of(kept, |x: StepStat| x.minflt)
    &&& s.vram_free_load == first.vram_free
    &&& s.vram_free_min == min_free(kept)
    &&& s.eng_warm == sum_of(kept, |x: StepStat| x.eng_warm)
    &&& s.eng_cold == sum_of(kept, |x: StepStat| x.eng_cold)
    &&& s.eng_direct == sum_of(kept, |x: StepStat| x.eng_direct)
    &&& s.wait_sum_ns == sum_of(kept, |x: StepStat| x.eng_wait_ns)
    &&& is_median(s.wait_p50_ns, field(kept, |x: StepStat| x.eng_wait_ns))
    &&& s.wait_max_ns == max_of(kept, |x: StepStat| x.eng_wait_ns)
    &&& s.eng_helper_ns == sum_of(kept, |x: StepStat| x.eng_helper_ns)
    &&& s.eng_classify_ns == sum_of(kept, |x: StepStat| x.eng_classify_ns)
    &&& s.go_early_first == sum_of(kept, |x: StepStat| x.go_early_first)
    &&& s.launch_ns == sum_of(kept, |x: StepStat| x.launch_ns)
    &&& s.first_serve_lag_ns == sum_of(kept, |x: StepStat| x.first_serve_lag_ns)
    &&& s.wake_ns == sum_of(kept, |x: StepStat| x.wake_ns)
}

/// The sums but for the medians, of the first `n` kept steps.
spec fn running(s: Summary, kept: Seq<StepStat>, first: Probe) -> bool {
    &&& s.steps == kept.len()
    &&& s.leg_sum_ns == sum_of(kept, |x: StepStat| x.leg_ns)
    &&& s.straggle_max_ns == max_of(kept, |x: StepStat| x.straggle_ns)
    &&& s.host_slots == sum_of(kept, |x: StepStat| x.host_slots)
    &&& s.overlap == sum_of(kept, |x: StepStat| x.overlap)
    &&& s.row1 == sum_of(kept, |x: StepStat| x.row1)
    &&& s.majflt == sum_of(kept, |x: StepStat| x.majflt)
    &&& s.minflt == sum_of(kept, |x: StepStat| x.minflt)
    &&& s.vram_free_load == first.vram_free
    &&& s.vram_free_min == min_free(kept)
    &&& s.eng_warm == sum_of(kept, |x: StepStat| x.eng_warm)
    &&& s.eng_cold == sum_of(kept, |x: StepStat| x.eng_cold)
    &&& s.eng_direct == sum_of(kept, |x: StepStat| x.eng_direct)
    &&& s.wait_sum_ns == sum_of(kept, |x: StepStat| x.eng_wait_ns)
    &&& s.wait_max_ns == max_of(kept, |x: StepStat| x.eng_wait_ns)
    &&& s.eng_helper_ns == sum_of(kept, |x: StepStat| x.eng_helper_ns)
    &&& s.eng_classify_ns == sum_of(kept, |x: StepStat| x.eng_classify_ns)
    &&& s.go_early_first == sum_of(kept, |x: StepStat| x.go_early_first)
    &&& s.launch_ns == sum_of(kept, |x: StepStat| x.launch_ns)
    &&& s.first_serve_lag_ns == sum_of(kept, |x: StepStat| x.first_serve_lag_ns)
    &&& s.wake_ns == sum_of(kept, |x: StepStat| x.wake_ns)
}

proof fn lemma_sum_bound(v: Seq<StepStat>, f: spec_fn(StepStat) -> u64)
    ensures
        0 <= sum_of(v, f) <= v.len() * u64::MAX,
    decreases v.len(),
{
    if v.len() > 0 {
        lemma_sum_bound(v.drop_last(), f);
        let n = v.len() as int;
        assert((n - 1) * u64::MAX + u64::MAX == n * u64::MAX) by (nonlinear_arith);
    }
}

/// A sum of one step more.
fn more(sum: u128, x: u64, n: usize) -> (r: u128)
    requires
        sum <= n * u64::MAX,
    ensures
        r == sum + x,
{
    assert(n * u64::MAX <= usize::MAX * u64::MAX) by (nonlinear_arith)
        requires
            n <= usize::MAX,
    ;
    sum + x as u128
}

/// The larger of two.
fn larger(a: u64, b: u64) -> (r: u64)
    ensures
        r == (if b > a {
            b
        } else {
            a
        }),
{
    if b > a {
        b
    } else {
        a
    }
}

/// Adds a step to the running sums.
#[verifier::rlimit(60)]
fn add_step(s: &Summary, x: &StepStat, kept: Ghost<Seq<StepStat>>, first: Ghost<Probe>) -> (r:
    Summary)
    requires
        running(*s, kept@, first@),
        kept@.len() < usize::MAX,
    ensures
        running(r, kept@.push(*x), first@),
        r.leg_p50_ns == s.leg_p50_ns,
        r.wait_p50_ns == s.wait_p50_ns,
{
    let n: usize = s.steps;
    proof {
        let k = kept@;
        assert(k.push(*x).drop_last() =~= k);
        lemma_sum_bound(k, |x: StepStat| x.leg_ns);
        lemma_sum_bound(k, |x: StepStat| x.host_slots);
        lemma_sum_bound(k, |x: StepStat| x.overlap);
        lemma_sum_bound(k, |x: StepStat| x.row1);
        lemma_sum_bound(k, |x: StepStat| x.majflt);
        lemma_sum_bound(k, |x: StepStat| x.minflt);
        lemma_sum_bound(k, |x: StepStat| x.eng_warm);
        lemma_sum_bound(k, |x: StepStat| x.eng_cold);
        lemma_sum_bound(k, |x: StepStat| x.eng_direct);
        lemma_sum_bound(k, |x: StepStat| x.eng_wait_ns);
        lemma_sum_bound(k, |x: StepStat| x.eng_helper_ns);
        lemma_sum_bound(k, |x: StepStat| x.eng_classify_ns);
        lemma_sum_bound(k, |x: StepStat| x.go_early_first);
        lemma_sum_bound(k, |x: StepStat| x.launch_ns);
        lemma_sum_bound(k, |x: StepStat| x.first_serve_lag_ns);
        lemma_sum_bound(k, |x: StepStat| x.wake_ns);
    }
    Summary {
        steps: n + 1,
        leg_sum_ns: more(s.leg_sum_ns, x.leg_ns, n),
        leg_p50_ns: s.leg_p50_ns,
        straggle_max_ns: larger(s.straggle_max_ns, x.straggle_ns),
        host_slots: more(s.host_slots, x.host_slots, n),
        overlap: more(s.overlap, x.overlap, n),
        row1: more(s.row1, x.row1, n),
        majflt: more(s.majflt, x.majflt, n),
        minflt: more(s.minflt, x.minflt, n),
        vram_free_load: s.vram_free_load,
        vram_free_min: if x.vram_free < s.vram_free_min {
            x.vram_free
        } else {
            s.vram_free_min
        },
        eng_warm: more(s.eng_warm, x.eng_warm, n),
        eng_cold: more(s.eng_cold, x.eng_cold, n),
        eng_direct: more(s.eng_direct, x.eng_direct, n),
        wait_sum_ns: more(s.wait_sum_ns, x.eng_wait_ns, n),
        wait_p50_ns: s.wait_p50_ns,
        wait_max_ns: larger(s.wait_max_ns, x.eng_wait_ns),
        eng_helper_ns: more(s.eng_helper_ns, x.eng_helper_ns, n),
        eng_classify_ns: more(s.eng_classify_ns, x.eng_classify_ns, n),
        go_early_first: more(s.go_early_first, x.go_early_first, n),
        launch_ns: more(s.launch_ns, x.launch_ns, n),
        first_serve_lag_ns: more(s.first_serve_lag_ns, x.first_serve_lag_ns, n),
        wake_ns: more(s.wake_ns, x.wake_ns, n),
    }
}

/// The summary over the steps past `warm`, `None` when none is left. `first` is
/// the read before the first generated step.
pub fn summarize(first: &Probe, steps: &[StepStat], warm: usize) -> (r: Option<Summary>)
    ensures
        match r {
            Some(s) => warm < steps@.len() && sums_up(s, steps@.skip(warm as int), *first),
            None => warm >= steps@.len(),
        },
{
    let n: usize = steps.len();
    if warm >= n {
        return None;
    }
    let mut s: Summary = Summary {
        steps: 0,
        leg_sum_ns: 0,
        leg_p50_ns: 0,
        straggle_max_ns: 0,
        host_slots: 0,
        overlap: 0,
        row1: 0,
        majflt: 0,
        minflt: 0,
        vram_free_load: first.vram_free,
        vram_free_min: u64::MAX,
        eng_warm: 0,
        eng_cold: 0,
        eng_direct: 0,
        wait_sum_ns: 0,
        wait_p50_ns: 0,
        wait_max_ns: 0,
        eng_helper_ns: 0,
        eng_classify_ns: 0,
        go_early_first: 0,
        launch_ns: 0,
        first_serve_lag_ns: 0,
        wake_ns: 0,
    };
    let mut legs: Vec<u64> = Vec::new();
    let mut waits: Vec<u64> = Vec::new();
    let ghost leg = |x: StepStat| x.leg_ns;
    let ghost wait = |x: StepStat| x.eng_wait_ns;
    let mut i: usize = warm;
    assert(steps@.subrange(warm as int, warm as int) =~= Seq::<StepStat>::empty());
    while i < n
        invariant
            warm <= i <= n == steps@.len(),
            running(s, steps@.subrange(warm as int, i as int), *first),
            leg == (|x: StepStat| x.leg_ns),
            wait == (|x: StepStat| x.eng_wait_ns),
            legs@ =~= field(steps@.subrange(warm as int, i as int), leg),
            waits@ =~= field(steps@.subrange(warm as int, i as int), wait),
        decreases n - i,
    {
        let ghost kept = steps@.subrange(warm as int, i as int);
        s = add_step(&s, &steps[i], Ghost(kept), Ghost(*first));
        legs.push(steps[i].leg_ns);
        waits.push(steps[i].eng_wait_ns);
        assert(steps@.subrange(warm as int, i + 1) =~= kept.push(steps@[i as int]));
        i += 1;
    }
    assert(steps@.subrange(warm as int, n as int) =~= steps@.skip(warm as int));
    let a: Vec<u64> = ascending(&legs);
    let b: Vec<u64> = ascending(&waits);
    let half: usize = a.len() / 2;
    let leg_p50_ns: u64 = a[half];
    let wait_p50_ns: u64 = b[half];
    proof {
        let kept = steps@.skip(warm as int);
        assert(ascends(a@) && ascends(b@));
        assert(is_median(leg_p50_ns, field(kept, leg)));
        assert(is_median(wait_p50_ns, field(kept, wait)));
    }
    s.leg_p50_ns = leg_p50_ns;
    s.wait_p50_ns = wait_p50_ns;
    Some(s)
}

/// Where the engram rows' helper runs, as the summary prints it.
pub open spec fn helper_text(h: Option<Option<usize>>) -> Seq<char> {
    match h {
        None => "off"@,
        Some(None) => "floating"@,
        Some(Some(cpu)) => "cpu"@ + decimal(cpu as nat),
    }
}

/// Where the engram rows' helper runs: off, floating, or on a cpu.
pub fn helper_name(h: Option<Option<usize>>) -> (r: String)
    ensures
        r@ == helper_text(h),
{
    let mut out: Vec<char> = Vec::new();
    match h {
        None => {
            text::push_str(&mut out, "off");
        },
        Some(None) => {
            text::push_str(&mut out, "floating");
        },
        Some(Some(cpu)) => {
            text::push_str(&mut out, "cpu");
            text::push_decimal(&mut out, cpu as u64);
        },
    }
    assert(out@ =~= helper_text(h));
    text::string_of(out.as_slice())
}

// ------------------------------------------------------------ what a step says

/// A step's counters are what they rose by: with the reading before it they give
/// the reading after it, every one; the slots the two rows share are counted once
/// in the union; the maximum and the free memory are the reading's own.
pub proof fn law_a_step_is_the_rise(p: Probe, q: Probe)
    requires
        rises(p, q),
    ensures
        ({
            let s = step_of(p, q);
            &&& p.served + s.served == q.served
            &&& p.leg_ns + s.leg_ns == q.leg_ns
            &&& p.straggle_ns + s.straggle_ns == q.straggle_ns
            &&& p.host_slots + s.host_slots == q.host_slots
            &&& p.go_early + s.go_early == q.go_early
            &&& p.parks + s.parks == q.parks
            &&& p.go_early_first + s.go_early_first == q.go_early_first
            &&& p.first_serve_lag_ns + s.first_serve_lag_ns == q.first_serve_lag_ns
            &&& p.launch_ns + s.launch_ns == q.launch_ns
            &&& p.wake_ns + s.wake_ns == q.wake_ns
            &&& p.eng_warm + s.eng_warm == q.eng_warm
            &&& p.eng_cold + s.eng_cold == q.eng_cold
            &&& p.eng_direct + s.eng_direct == q.eng_direct
            &&& p.eng_wait_ns + s.eng_wait_ns == q.eng_wait_ns
            &&& p.eng_helper_ns + s.eng_helper_ns == q.eng_helper_ns
            &&& p.eng_classify_ns + s.eng_classify_ns == q.eng_classify_ns
            &&& p.majflt + s.majflt == q.majflt
            &&& p.minflt + s.minflt == q.minflt
            &&& p.overlap_slots + s.overlap == q.overlap_slots
            &&& p.pair_row1_slots + s.row1 == q.pair_row1_slots
            &&& s.union + s.overlap == s.host_slots
            &&& s.straggle_max_ns == q.straggle_max_ns
            &&& s.vram_free == q.vram_free
        }),
{
}

/// The sum over two runs of steps is the sum of theirs, the greatest is the
/// greater of theirs, and the least free memory the less.
pub proof fn law_a_summary_adds_up(
    a: Seq<StepStat>,
    b: Seq<StepStat>,
    f: spec_fn(StepStat) -> u64,
    i: int,
)
    requires
        0 <= i < a.len(),
    ensures
        sum_of(a + b, f) == sum_of(a, f) + sum_of(b, f),
        f(a[i]) <= max_of(a, f),
        exists|k: int| 0 <= k < a.len() && #[trigger] f(a[k]) == max_of(a, f),
        a[i].vram_free >= min_free(a),
        exists|k: int| 0 <= k < a.len() && (#[trigger] a[k]).vram_free == min_free(a),
{
    lemma_sums_join(a, b, f);
    lemma_max(a, f, i);
    lemma_min(a, i);
}

proof fn lemma_sums_join(a: Seq<StepStat>, b: Seq<StepStat>, f: spec_fn(StepStat) -> u64)
    ensures
        sum_of(a + b, f) == sum_of(a, f) + sum_of(b, f),
    decreases b.len(),
{
    if b.len() == 0 {
        assert(a + b =~= a);
    } else {
        assert((a + b).drop_last() =~= a + b.drop_last());
        lemma_sums_join(a, b.drop_last(), f);
    }
}

proof fn lemma_max(v: Seq<StepStat>, f: spec_fn(StepStat) -> u64, i: int)
    requires
        0 <= i < v.len(),
    ensures
        f(v[i]) <= max_of(v, f),
        exists|k: int| 0 <= k < v.len() && #[trigger] f(v[k]) == max_of(v, f),
    decreases v.len(),
{
    let w = v.drop_last();
    let n = v.len() - 1;
    if v.len() == 1 {
        reveal_with_fuel(max_of, 2);
        assert(f(v[0]) == max_of(v, f));
    } else {
        lemma_max(
            w,
            f,
            if i < n {
                i
            } else {
                0
            },
        );
        let k = choose|k: int| 0 <= k < w.len() && #[trigger] f(w[k]) == max_of(w, f);
        assert(w[k] == v[k]);
        if i < n {
            assert(w[i] == v[i]);
        }
        if f(v.last()) > max_of(w, f) {
            assert(f(v[n]) == max_of(v, f));
        } else {
            assert(f(v[k]) == max_of(v, f));
        }
    }
}

proof fn lemma_min(v: Seq<StepStat>, i: int)
    requires
        0 <= i < v.len(),
    ensures
        v[i].vram_free >= min_free(v),
        exists|k: int| 0 <= k < v.len() && (#[trigger] v[k]).vram_free == min_free(v),
    decreases v.len(),
{
    let w = v.drop_last();
    let n = v.len() - 1;
    if v.len() == 1 {
        reveal_with_fuel(min_free, 2);
        assert(v[0].vram_free == min_free(v));
    } else {
        lemma_min(
            w,
            if i < n {
                i
            } else {
                0
            },
        );
        let k = choose|k: int| 0 <= k < w.len() && (#[trigger] w[k]).vram_free == min_free(w);
        assert(w[k] == v[k]);
        if i < n {
            assert(w[i] == v[i]);
        }
        if v.last().vram_free < min_free(w) {
            assert(v[n].vram_free == min_free(v));
        } else {
            assert(v[k].vram_free == min_free(v));
        }
    }
}

/// The median of values in order is the one at half their number, and the order
/// they come in does not change it.
pub proof fn law_the_median_stands_in_the_middle(m: u64, v: Seq<u64>, w: Seq<u64>)
    requires
        ascends(v),
        v.len() > 0,
        w.to_multiset() == v.to_multiset(),
        w.len() == v.len(),
    ensures
        is_median(m, w) ==> m == v[v.len() as int / 2],
        is_median(v[v.len() as int / 2], w),
{
    assert(ascends(v));
    if is_median(m, w) {
        let s = choose|s: Seq<u64>|
            #![trigger ascends(s)]
            ascends(s) && s.to_multiset() == w.to_multiset() && s.len() == w.len() && m == s[s.len()
                as int / 2];
        let leq = |a: u64, b: u64| a <= b;
        assert(vstd::relations::sorted_by(s, leq));
        assert(vstd::relations::sorted_by(v, leq));
        assert(vstd::relations::total_ordering(leq));
        vstd::seq_lib::lemma_sorted_unique(s, v, leq);
    }
}

/// The summary of one step is that step, field by field.
pub proof fn law_one_steps_summary_is_the_step(s: Summary, x: StepStat, first: Probe)
    requires
        sums_up(s, seq![x], first),
    ensures
        s.steps == 1,
        s.vram_free_load == first.vram_free,
        s.leg_sum_ns == x.leg_ns,
        s.straggle_max_ns == x.straggle_ns,
        s.host_slots == x.host_slots,
        s.overlap == x.overlap,
        s.row1 == x.row1,
        s.majflt == x.majflt,
        s.minflt == x.minflt,
        s.vram_free_min == x.vram_free,
        s.eng_warm == x.eng_warm,
        s.eng_cold == x.eng_cold,
        s.eng_direct == x.eng_direct,
        s.wait_sum_ns == x.eng_wait_ns,
        s.wait_max_ns == x.eng_wait_ns,
        s.eng_helper_ns == x.eng_helper_ns,
        s.eng_classify_ns == x.eng_classify_ns,
        s.go_early_first == x.go_early_first,
        s.launch_ns == x.launch_ns,
        s.first_serve_lag_ns == x.first_serve_lag_ns,
        s.wake_ns == x.wake_ns,
        s.leg_p50_ns == x.leg_ns,
        s.wait_p50_ns == x.eng_wait_ns,
{
    let v = seq![x];
    assert(v.drop_last() =~= Seq::<StepStat>::empty());
    assert(v.last() == x);
    reveal_with_fuel(sum_of, 2);
    reveal_with_fuel(max_of, 2);
    reveal_with_fuel(min_free, 2);
    let (a, b) = (
        field(v, |x: StepStat| x.leg_ns),
        field(v, |x: StepStat| x.eng_wait_ns),
    );
    assert(a =~= seq![x.leg_ns]);
    assert(b =~= seq![x.eng_wait_ns]);
    law_the_median_stands_in_the_middle(s.leg_p50_ns, a, a);
    law_the_median_stands_in_the_middle(s.wait_p50_ns, b, b);
}

} // verus!
