//! The router gate's comparisons: one token's routing against the host rule,
//! the dump, a rerun and a replay, and the constructed ties that pin the tie
//! rule where a dump cannot.
//!
//! Singles are held by their bits.
use crate::bits;
use crate::count::count_where;
use crate::planes::within;
use crate::rank;
use crate::rank::is_top;
use vstd::prelude::*;

verus! {

/// Experts of a layer.
pub const N_EXPERT: usize = 128;

/// Experts a token uses.
pub const N_USED: usize = 8;

/// The most tokens one launch routes.
pub const MAX_TOKENS: usize = 8;

/// Band of probabilities and weights against the host rule, absolute: a
/// millionth, by its bits.
pub const BAND: u32 = 0x3586_37bd;

/// One launch's results.
#[derive(Clone, Debug)]
pub struct Routed {
    pub probs: Vec<u32>,
    pub ids: Vec<u32>,
    pub weights: Vec<u32>,
}

/// A launch's results with the logits it made.
#[derive(Clone, Debug)]
pub struct Fused {
    pub logits: Vec<u32>,
    pub routed: Routed,
}

/// Two launches agree bit for bit.
pub open spec fn routed_same(a: &Routed, b: &Routed) -> bool {
    a.probs@ == b.probs@ && a.ids@ == b.ids@ && a.weights@ == b.weights@
}

/// Whether two launches agree bit for bit.
pub fn routed_equal(a: &Routed, b: &Routed) -> (r: bool)
    ensures
        r == routed_same(a, b),
{
    bits::bits_equal(a.probs.as_slice(), b.probs.as_slice()) && bits::bits_equal(
        a.ids.as_slice(),
        b.ids.as_slice(),
    ) && bits::bits_equal(a.weights.as_slice(), b.weights.as_slice())
}

/// Whether two launches agree bit for bit, logits too.
pub fn fused_equal(a: &Fused, b: &Fused) -> (r: bool)
    ensures
        r == (a.logits@ == b.logits@ && routed_same(&a.routed, &b.routed)),
{
    bits::bits_equal(a.logits.as_slice(), b.logits.as_slice()) && routed_equal(&a.routed, &b.routed)
}

/// The first of a list, all of it where it is no longer.
pub open spec fn up_to(v: Seq<u32>, n: int) -> Seq<u32> {
    if v.len() <= n {
        v
    } else {
        v.take(n)
    }
}

/// The first `n` values of a buffer.
fn cut(mut v: Vec<u32>, n: usize) -> (r: Vec<u32>)
    ensures
        r@ == up_to(v@, n as int),
{
    if v.len() > n {
        v.truncate(n);
    }
    v
}

/// A launch's results for its first `m` tokens, of buffers that hold more.
pub fn first_tokens(f: Fused, m: usize) -> (r: Fused)
    requires
        m <= MAX_TOKENS,
    ensures
        r.logits@ == up_to(f.logits@, m * 128),
        r.routed.probs@ == up_to(f.routed.probs@, m * 128),
        r.routed.ids@ == up_to(f.routed.ids@, m * 8),
        r.routed.weights@ == up_to(f.routed.weights@, m * 8),
{
    Fused {
        logits: cut(f.logits, m * N_EXPERT),
        routed: Routed {
            probs: cut(f.routed.probs, m * N_EXPERT),
            ids: cut(f.routed.ids, m * N_USED),
            weights: cut(f.routed.weights, m * N_USED),
        },
    }
}

/// One token's column of row-major outputs of `m` tokens.
pub fn column(y: &[u32], rows: usize, m: usize, t: usize) -> (r: Vec<u32>)
    requires
        y@.len() == rows * m,
        t < m,
    ensures
        r@ == Seq::new(rows as nat, |e: int| y@[e * m + t]),
{
    let len: usize = y.len();
    let mut out: Vec<u32> = Vec::new();
    let mut e: usize = 0;
    while e < rows
        invariant
            len == y@.len() == rows * m,
            t < m,
            e <= rows,
            out@ =~= Seq::new(e as nat, |e: int| y@[e * m + t]),
        decreases rows - e,
    {
        assert(0 <= e * m <= e * m + t < rows * m) by (nonlinear_arith)
            requires
                0 <= e < rows,
                0 <= t < m,
        ;
        out.push(y[e * m + t]);
        e += 1;
    }
    out
}

/// One value after another.
fn extend(v: &mut Vec<u32>, more: &[u32])
    ensures
        final(v)@ == old(v)@ + more@,
{
    let ghost held = v@;
    let mut i: usize = 0;
    while i < more.len()
        invariant
            i <= more@.len(),
            held == old(v)@,
            v@ =~= held + more@.take(i as int),
        decreases more@.len() - i,
    {
        v.push(more[i]);
        i += 1;
    }
    assert(v@ =~= held + more@);
}

impl Fused {
    /// No token's results.
    pub fn none() -> (r: Fused)
        ensures
            r.logits@.len() == 0,
            r.routed.probs@.len() == 0,
            r.routed.ids@.len() == 0,
            r.routed.weights@.len() == 0,
    {
        Fused {
            logits: Vec::new(),
            routed: Routed { probs: Vec::new(), ids: Vec::new(), weights: Vec::new() },
        }
    }

    /// The next token's logits and routing behind those before it: what a fused
    /// launch of all of them is held to.
    pub fn add_token(&mut self, logits: &[u32], routed: &Routed)
        ensures
            final(self).logits@ == old(self).logits@ + logits@,
            final(self).routed.probs@ == old(self).routed.probs@ + routed.probs@,
            final(self).routed.ids@ == old(self).routed.ids@ + routed.ids@,
            final(self).routed.weights@ == old(self).routed.weights@ + routed.weights@,
    {
        extend(&mut self.logits, logits);
        extend(&mut self.routed.probs, routed.probs.as_slice());
        extend(&mut self.routed.ids, routed.ids.as_slice());
        extend(&mut self.routed.weights, routed.weights.as_slice());
    }
}

/// Whether a fused launch held: every bit of the split pair's, and the ticket
/// count back at zero.
pub fn fused_ok(got: &Fused, want: &Fused, tickets: u32) -> (r: bool)
    ensures
        r == (got.logits@ == want.logits@ && routed_same(&got.routed, &want.routed) && tickets
            == 0),
{
    fused_equal(got, want) && tickets == 0
}

// ------------------------------------------------------------ the norm-fused launch

/// The planes of one quantized row, the scales by their bits.
#[derive(Clone, Debug)]
pub struct Q8Planes {
    pub q3: Vec<u32>,
    pub q4: Vec<u32>,
    pub q6: Vec<u32>,
    pub s8: Vec<u32>,
    pub d8: Vec<u32>,
}

/// Two rows quantized alike, plane for plane.
pub open spec fn q8_same(a: &Q8Planes, b: &Q8Planes) -> bool {
    &&& a.q3@ == b.q3@
    &&& a.q4@ == b.q4@
    &&& a.q6@ == b.q6@
    &&& a.s8@ == b.s8@
    &&& a.d8@ == b.d8@
}

/// Whether two rows quantized alike, plane for plane.
pub fn q8_equal(a: &Q8Planes, b: &Q8Planes) -> (r: bool)
    ensures
        r == q8_same(a, b),
{
    bits::bits_equal(a.q3.as_slice(), b.q3.as_slice()) && bits::bits_equal(
        a.q4.as_slice(),
        b.q4.as_slice(),
    ) && bits::bits_equal(a.q6.as_slice(), b.q6.as_slice()) && bits::bits_equal(
        a.s8.as_slice(),
        b.s8.as_slice(),
    ) && bits::bits_equal(a.d8.as_slice(), b.d8.as_slice())
}

/// One path's results for one token: the normed row quantized, and the router's
/// outputs.
#[derive(Clone, Debug)]
pub struct NormRouted {
    pub act: Q8Planes,
    pub routed: Fused,
}

/// Two paths agree on a token, bit for bit.
pub open spec fn norm_same(a: NormRouted, b: NormRouted) -> bool {
    &&& q8_same(&a.act, &b.act)
    &&& a.routed.logits@ == b.routed.logits@
    &&& routed_same(&a.routed.routed, &b.routed.routed)
}

/// Whether two paths agree on a token, bit for bit.
pub fn norm_equal(a: &NormRouted, b: &NormRouted) -> (r: bool)
    ensures
        r == norm_same(*a, *b),
{
    q8_equal(&a.act, &b.act) && fused_equal(&a.routed, &b.routed)
}

/// The paths agree on a token.
pub open spec fn agrees(got: Seq<NormRouted>, want: Seq<NormRouted>) -> spec_fn(int) -> bool {
    |t: int| norm_same(got[t], want[t])
}

/// What a layer showed: the tokens the two paths agree on, whether the ticket
/// count was back at zero after each, and whether the layer passes.
#[derive(Clone, Copy, Debug, PartialEq, Eq, Structural)]
pub struct NormTally {
    pub same: usize,
    pub tickets_zero: bool,
    pub pass: bool,
}

/// A layer's norm-fused launches against the two launches each replaces, token
/// by token, with the ticket count after each.
pub fn norm_tally(got: &[NormRouted], want: &[NormRouted], tickets: &[u32]) -> (r: NormTally)
    requires
        got@.len() == want@.len(),
        tickets@.len() == want@.len(),
    ensures
        r.same == count_where(want@.len() as int, agrees(got@, want@)),
        r.tickets_zero == forall|t: int|
            0 <= t < tickets@.len() ==> #[trigger] tickets@[t] == 0,
        r.pass == (r.same == want@.len() && r.tickets_zero),
{
    let mut same: usize = 0;
    let mut zero: bool = true;
    let mut t: usize = 0;
    while t < want.len()
        invariant
            t <= want@.len() == got@.len(),
            tickets@.len() == want@.len(),
            same <= t,
            same == count_where(t as int, agrees(got@, want@)),
            zero == forall|k: int| 0 <= k < t ==> #[trigger] tickets@[k] == 0,
        decreases want@.len() - t,
    {
        if norm_equal(&got[t], &want[t]) {
            same += 1;
        }
        if tickets[t] != 0 {
            zero = false;
            assert(tickets@[t as int] != 0);
        }
        t += 1;
    }
    NormTally { same, tickets_zero: zero, pass: same == want.len() && zero }
}

/// A layer passes exactly when the two paths agree on every token and no ticket
/// is left.
pub proof fn law_a_layer_passes_on_every_token(
    got: Seq<NormRouted>,
    want: Seq<NormRouted>,
    n: int,
)
    requires
        0 <= n <= want.len(),
    ensures
        count_where(n, agrees(got, want)) == n <==> forall|t: int|
            0 <= t < n ==> norm_same(#[trigger] got[t], want[t]),
    decreases n,
{
    if n > 0 {
        law_a_layer_passes_on_every_token(got, want, n - 1);
        crate::count::lemma_count_bound(n - 1, agrees(got, want));
        assert(agrees(got, want)(n - 1) == norm_same(got[n - 1], want[n - 1]));
    }
}

// ------------------------------------------------------------ what is read

/// How a file scores its experts.
#[derive(Clone, Copy, Debug, PartialEq, Eq, Structural)]
pub enum Score {
    Softmax,
    Other,
}

/// Whether a file routes as the kernel does: softmax, eight of 128,
/// renormalized.
pub fn routes_as_the_kernel(n_expert: usize, n_used: usize, score: Score, norm: bool) -> (r: bool)
    ensures
        r == (n_expert == N_EXPERT && n_used == N_USED && score == Score::Softmax && norm),
{
    n_expert == N_EXPERT && n_used == N_USED && score == Score::Softmax && norm
}

/// Whether a layer's logits, ids and weights are those of the same tokens.
pub fn layer_fits(ne0: u64, ne1: u64, n_ids: usize, n_weights: usize) -> (r: bool)
    ensures
        r == (ne0 == N_EXPERT && n_ids == N_USED * ne1 && n_weights == N_USED * ne1),
{
    ne0 == N_EXPERT as u64 && n_ids as u128 == 8 * ne1 as u128 && n_weights as u128 == 8
        * ne1 as u128
}

/// The rows of a source: none where it holds nothing or no whole rows.
pub fn row_count(len: usize, width: usize) -> (r: Option<usize>)
    requires
        0 < width,
    ensures
        r == (if len == 0 || len % width != 0 {
            None::<usize>
        } else {
            Some((len / width) as usize)
        }),
{
    if len == 0 || len % width != 0 {
        None
    } else {
        Some(len / width)
    }
}

// ------------------------------------------------------------ verdicts

/// What one token showed.
#[derive(Clone, Copy, Debug, PartialEq, Eq, Structural)]
pub struct TokenCheck {
    /// A rerun is bit-identical.
    pub rerun: bool,
    /// The ids are the host rule's.
    pub ids_exact: bool,
    /// The probabilities' largest distance from the host rule, by its bits.
    pub probs_err: u32,
    /// The weights' largest distance from the host rule, by its bits.
    pub weights_err: u32,
    /// The ids are the dump's.
    pub ik_same: bool,
}

/// A distance lies within the band.
pub open spec fn in_band(err: u32) -> bool {
    !bits::nan(err) && bits::order_key(err) <= bits::order_key(BAND)
}

/// A token passes: exact ids, both ways, and both distances within the band.
pub open spec fn token_passes(c: TokenCheck) -> bool {
    c.rerun && c.ids_exact && in_band(c.probs_err) && in_band(c.weights_err) && c.ik_same
}

/// What one token showed: a launch `a` and its rerun `b`, the host rule's ids
/// and the dump's, and the largest distances from the host rule.
pub fn token_check(
    a: &Routed,
    b: &Routed,
    host_ids: &[u32],
    ik_ids: &[u32],
    probs_err: u32,
    weights_err: u32,
) -> (r: TokenCheck)
    ensures
        r == (TokenCheck {
            rerun: routed_same(a, b),
            ids_exact: a.ids@ == host_ids@,
            probs_err,
            weights_err,
            ik_same: a.ids@ == ik_ids@,
        }),
{
    TokenCheck {
        rerun: routed_equal(a, b),
        ids_exact: bits::bits_equal(a.ids.as_slice(), host_ids),
        probs_err,
        weights_err,
        ik_same: bits::bits_equal(a.ids.as_slice(), ik_ids),
    }
}

/// What the tokens showed so far.
#[derive(Clone, Copy, Debug, PartialEq, Eq, Structural)]
pub struct RouterTally {
    pub tokens: usize,
    /// Tokens whose ids are not the dump's.
    pub ik_mismatch: usize,
    pub ok: bool,
}

/// Whether the first `n` tokens pass.
pub open spec fn all_pass(c: Seq<TokenCheck>) -> bool {
    forall|i: int| 0 <= i < c.len() ==> token_passes(#[trigger] c[i])
}

/// How many tokens' ids are not the dump's.
pub open spec fn mismatches(c: Seq<TokenCheck>) -> nat
    decreases c.len(),
{
    if c.len() == 0 {
        0
    } else if c.last().ik_same {
        mismatches(c.drop_last())
    } else {
        mismatches(c.drop_last()) + 1
    }
}

/// Whether a token passes.
pub fn token_ok(c: &TokenCheck) -> (r: bool)
    ensures
        r == token_passes(*c),
{
    assert(!bits::nan(BAND));
    c.rerun && c.ids_exact && within(c.probs_err, BAND) && within(c.weights_err, BAND) && c.ik_same
}

/// The tally over the tokens of every layer and set.
pub fn tally(checks: &[TokenCheck]) -> (r: RouterTally)
    ensures
        r.tokens == checks@.len(),
        r.ik_mismatch == mismatches(checks@),
        r.ok == all_pass(checks@),
{
    let mut bad: usize = 0;
    let mut ok: bool = true;
    let mut i: usize = 0;
    while i < checks.len()
        invariant
            i <= checks@.len(),
            bad <= i,
            bad == mismatches(checks@.take(i as int)),
            ok == all_pass(checks@.take(i as int)),
        decreases checks@.len() - i,
    {
        let ghost was = checks@.take(i as int);
        let ghost now = checks@.take(i + 1);
        assert(now.drop_last() =~= was);
        assert(forall|j: int| 0 <= j < i ==> #[trigger] now[j] == was[j]);
        let pass: bool = token_ok(&checks[i]);
        proof {
            assert(now[i as int] == checks@[i as int]);
            if ok && pass {
                assert forall|j: int| 0 <= j < now.len() implies token_passes(
                    #[trigger] now[j],
                ) by {
                    if j < i {
                        assert(was[j] == now[j]);
                    }
                }
            }
            if all_pass(now) {
                assert forall|j: int| 0 <= j < was.len() implies token_passes(
                    #[trigger] was[j],
                ) by {
                    assert(now[j] == was[j]);
                }
            }
        }
        if !checks[i].ik_same {
            bad += 1;
        }
        ok = ok && pass;
        i += 1;
    }
    assert(checks@.take(checks@.len() as int) =~= checks@);
    RouterTally { tokens: checks.len(), ik_mismatch: bad, ok }
}

/// Whether a captured graph held: one node, every replay the eager launch, and
/// the ticket count back at zero after each.
pub fn graph_ok(replays: bool, nodes: usize, tickets: &[u32]) -> (r: bool)
    ensures
        r == (replays && nodes == 1 && forall|i: int|
            0 <= i < tickets@.len() ==> #[trigger] tickets@[i] == 0),
{
    let mut i: usize = 0;
    while i < tickets.len()
        invariant
            i <= tickets@.len(),
            forall|j: int| 0 <= j < i ==> #[trigger] tickets@[j] == 0,
        decreases tickets@.len() - i,
    {
        if tickets[i] != 0 {
            return false;
        }
        i += 1;
    }
    replays && nodes == 1
}

/// Whether a NaN in the input was caught: both paths raise the same word, and
/// the ticket count is back at zero.
pub fn nan_caught(split: Option<u32>, fused: Option<u32>, tickets: u32) -> (r: bool)
    ensures
        r == (split is Some && split == fused && tickets == 0),
{
    match (split, fused) {
        (Some(a), Some(b)) => a == b && tickets == 0,
        _ => false,
    }
}

// ------------------------------------------------------------ ties

/// A constructed tie: logits in hundredths, and the ids the rule picks.
#[derive(Clone, Debug)]
pub struct Tie {
    pub name: &'static str,
    pub logits: Vec<i64>,
    pub want: Vec<usize>,
}

/// The logits of the ties, in hundredths: all equal; an eighth place shared by
/// three experts; a first place shared by two.
pub open spec fn tie_logit(case: int, e: int) -> i64 {
    if case == 0 {
        50
    } else if case == 1 {
        if e == 100 {
            300
        } else if e == 90 {
            275
        } else if e == 64 {
            250
        } else if e == 33 {
            225
        } else if e == 5 {
            200
        } else if e == 127 {
            175
        } else if e == 70 {
            150
        } else if e == 96 || e == 32 || e == 1 {
            100
        } else {
            (-400) as i64
        }
    } else if e == 127 || e == 31 {
        200
    } else if 40 <= e < 47 {
        (100 - 10 * (e - 40)) as i64
    } else {
        (-400) as i64
    }
}

/// A tie's logits.
pub open spec fn tie_logits(case: int) -> Seq<i64> {
    Seq::new(128, |e: int| tie_logit(case, e))
}

/// A tie's logits.
fn tie_row(case: usize) -> (r: Vec<i64>)
    requires
        case < 3,
    ensures
        r@ == tie_logits(case as int),
{
    let mut v: Vec<i64> = Vec::new();
    let mut e: usize = 0;
    while e < N_EXPERT
        invariant
            case < 3,
            e <= 128,
            v@ =~= tie_logits(case as int).take(e as int),
        decreases 128 - e,
    {
        let x: i64 = if case == 0 {
            50
        } else if case == 1 {
            if e == 100 {
                300
            } else if e == 90 {
                275
            } else if e == 64 {
                250
            } else if e == 33 {
                225
            } else if e == 5 {
                200
            } else if e == 127 {
                175
            } else if e == 70 {
                150
            } else if e == 96 || e == 32 || e == 1 {
                100
            } else {
                -400
            }
        } else if e == 127 || e == 31 {
            200
        } else if e >= 40 && e < 47 {
            100 - 10 * (e - 40) as i64
        } else {
            -400
        };
        v.push(x);
        e += 1;
    }
    v
}

/// The ids a tie's rule picks.
pub open spec fn tie_ids(case: int) -> Seq<usize> {
    if case == 0 {
        seq![0, 1, 2, 3, 4, 5, 6, 7]
    } else if case == 1 {
        seq![100, 90, 64, 33, 5, 127, 70, 1]
    } else {
        seq![31, 127, 40, 41, 42, 43, 44, 45]
    }
}

/// The name of a tie.
pub open spec fn tie_name(case: int) -> Seq<char> {
    if case == 0 {
        "all-equal"@
    } else if case == 1 {
        "eighth-shared-by-96-32-1"@
    } else {
        "first-shared-by-127-31"@
    }
}

/// The constructed ties.
pub fn ties() -> (r: Vec<Tie>)
    ensures
        r@.len() == 3,
        forall|c: int|
            0 <= c < 3 ==> (#[trigger] r@[c]).name@ == tie_name(c) && r@[c].logits@ == tie_logits(
                c,
            ) && r@[c].want@ == tie_ids(c),
{
    let a: Vec<usize> = vec![0, 1, 2, 3, 4, 5, 6, 7];
    let b: Vec<usize> = vec![100, 90, 64, 33, 5, 127, 70, 1];
    let c: Vec<usize> = vec![31, 127, 40, 41, 42, 43, 44, 45];
    assert(a@ =~= tie_ids(0));
    assert(b@ =~= tie_ids(1));
    assert(c@ =~= tie_ids(2));
    let mut r: Vec<Tie> = Vec::new();
    r.push(Tie { name: "all-equal", logits: tie_row(0), want: a });
    r.push(Tie { name: "eighth-shared-by-96-32-1", logits: tie_row(1), want: b });
    r.push(Tie { name: "first-shared-by-127-31", logits: tie_row(2), want: c });
    r
}

/// The ids each tie wants are its eight largest logits, the lower id first of
/// two as large.
pub proof fn law_ties_go_to_the_lower_id(case: int)
    requires
        0 <= case < 3,
    ensures
        is_top(tie_ids(case), tie_logits(case), 8),
{
    let ids = tie_ids(case);
    let p = tie_logits(case);
    assert forall|a: int, b: int| 0 <= a < b < 8 implies rank::comes_before(
        p,
        #[trigger] ids[a] as int,
        #[trigger] ids[b] as int,
    ) by {
        assert(p[ids[a] as int] == tie_logit(case, ids[a] as int));
        assert(p[ids[b] as int] == tie_logit(case, ids[b] as int));
    }
    assert forall|x: int| #![trigger p[x]] 0 <= x < p.len() implies rank::among(ids, x) || forall|
        a: int,
    |
        0 <= a < 8 ==> rank::comes_before(p, #[trigger] ids[a] as int, x) by {
        if !rank::among(ids, x) {
            assert(ids[0] != x && ids[1] != x && ids[2] != x && ids[3] != x);
            assert(ids[4] != x && ids[5] != x && ids[6] != x && ids[7] != x);
            assert forall|a: int| 0 <= a < 8 implies rank::comes_before(
                p,
                #[trigger] ids[a] as int,
                x,
            ) by {
                assert(p[ids[a] as int] == tie_logit(case, ids[a] as int));
                assert(p[x] == tie_logit(case, x));
            }
        }
    }
}

/// Whether a ranking is the one a tie wants.
fn ranks_as(ids: &[usize], want: &[usize]) -> (r: bool)
    ensures
        r == (ids@ == want@),
{
    if ids.len() != want.len() {
        return false;
    }
    let mut i: usize = 0;
    while i < ids.len()
        invariant
            i <= ids@.len() == want@.len(),
            forall|j: int| 0 <= j < i ==> #[trigger] ids@[j] == want@[j],
        decreases ids@.len() - i,
    {
        if ids[i] != want[i] {
            return false;
        }
        i += 1;
    }
    assert(ids@ =~= want@);
    true
}

/// Whether a tie held: the launch's ids and the host rule's are the ones it
/// wants, and their weights lie within the band, the largest distance by its
/// bits.
pub fn tie_held(t: &Tie, ids: &[usize], host: &[usize], weights_err: u32) -> (r: bool)
    ensures
        r == (ids@ == t.want@ && host@ == t.want@ && in_band(weights_err)),
{
    assert(!bits::nan(BAND));
    ranks_as(ids, t.want.as_slice()) && ranks_as(host, t.want.as_slice()) && within(
        weights_err,
        BAND,
    )
}

/// The band of the probabilities and the weights is a millionth: the largest single
/// that is no more.
pub proof fn law_the_band_is_a_millionth()
    ensures
        ({
            let one = vstd::arithmetic::power2::pow2(149) as int;
            &&& 1000000 * bits::value_units(BAND) <= one
            &&& one < 1000000 * bits::value_units((BAND + 1) as u32)
        }),
{
    let p = vstd::arithmetic::power2::pow2(106) as int;
    vstd::arithmetic::power2::lemma2_to64();
    vstd::arithmetic::power2::lemma_pow2_pos(106);
    vstd::arithmetic::power2::lemma_pow2_adds(106, 32);
    vstd::arithmetic::power2::lemma_pow2_adds(138, 11);
    let one = vstd::arithmetic::power2::pow2(149) as int;
    assert(one == p * 8796093022208);
    assert(bits::value_units(BAND) == (0x0637bd + 0x80_0000) * p);
    assert(bits::value_units((BAND + 1) as u32) == (0x0637be + 0x80_0000) * p);
    assert(1000000 * (8796093 * p) <= one < 1000000 * (8796094 * p));
}

/// A token passes where a second run gives the same, the experts are the host's and
/// the reference's, and both distances are numbers of at most the band.
pub proof fn law_a_token_passes_within_the_band(c: TokenCheck)
    ensures
        token_passes(c) ==> c.rerun && c.ids_exact && c.ik_same && !bits::nan(c.probs_err) && !bits::nan(
            c.weights_err,
        ) && !bits::less(BAND, c.probs_err) && !bits::less(BAND, c.weights_err),
        c.rerun && c.ids_exact && c.ik_same && c.probs_err <= BAND && c.weights_err <= BAND
            ==> token_passes(c),
        in_band(BAND),
        !in_band((BAND + 1) as u32),
        bits::nan(c.probs_err) ==> !token_passes(c),
{
}

/// The mismatches are the tokens whose experts are not the reference's, each once.
pub proof fn law_mismatches_are_counted(c: Seq<TokenCheck>)
    ensures
        mismatches(c) == Set::new(|i: int| 0 <= i < c.len() && !c[i].ik_same).len(),
        all_pass(c) ==> mismatches(c) == 0,
{
    let n = c.len() as int;
    let p = |i: int| !c[i].ik_same;
    lemma_mismatches(c, p);
    crate::count::law_a_count_is_a_sets_size(n, p);
    let s = Set::new(|i: int| 0 <= i < c.len() && !c[i].ik_same);
    assert(Set::new(|i: int| 0 <= i < n && p(i)) =~= s);
    if all_pass(c) {
        assert forall|i: int| !s.contains(i) by {
            if 0 <= i < c.len() {
                assert(token_passes(c[i]));
            }
        }
        assert(s =~= Set::empty());
    }
}

proof fn lemma_mismatches(v: Seq<TokenCheck>, p: spec_fn(int) -> bool)
    requires
        forall|i: int| 0 <= i < v.len() ==> #[trigger] p(i) == (!v[i].ik_same),
    ensures
        mismatches(v) == crate::count::count_where(v.len() as int, p),
    decreases v.len(),
{
    if v.len() > 0 {
        let w = v.drop_last();
        assert forall|i: int| 0 <= i < w.len() implies #[trigger] p(i) == (!w[i].ik_same) by {
            assert(w[i] == v[i]);
        }
        lemma_mismatches(w, p);
        assert(p(v.len() - 1) == (!v.last().ik_same));
    }
}

/// What is kept of a list is its start, all of it where it is no longer.
pub proof fn law_what_is_kept_is_the_start(v: Seq<u32>, n: int)
    requires
        0 <= n,
    ensures
        up_to(v, n).len() <= n,
        up_to(v, n).len() == v.len() || up_to(v, n).len() == n,
        up_to(v, n).len() <= v.len(),
        up_to(v, n).is_prefix_of(v),
{
    assert(v.subrange(0, v.len() as int) =~= v);
}

/// The ties' names are all different.
pub proof fn law_a_tie_has_its_own_name(a: int, b: int)
    requires
        0 <= a < 3,
        0 <= b < 3,
    ensures
        tie_name(a) == tie_name(b) ==> a == b,
        tie_name(0) == "all-equal"@,
        crate::text::ends_with(tie_name(1), "96-32-1"@),
        crate::text::ends_with(tie_name(2), "127-31"@),
        tie_logit(1, 96) == tie_logit(1, 32) && tie_logit(1, 32) == tie_logit(1, 1),
        tie_logit(2, 127) == tie_logit(2, 31),
{
    reveal_strlit("all-equal");
    reveal_strlit("eighth-shared-by-96-32-1");
    reveal_strlit("first-shared-by-127-31");
    reveal_strlit("96-32-1");
    reveal_strlit("127-31");
    let (s, t) = (tie_name(1), tie_name(2));
    assert(s.skip(s.len() - 7) =~= "96-32-1"@);
    assert(t.skip(t.len() - 6) =~= "127-31"@);
    assert("all-equal"@.len() == 9 && s.len() == 24 && t.len() == 22);
}

} // verus!
