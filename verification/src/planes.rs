//! The key and value planes an append writes: `ctx` rows of one head's width
//! per key head, head by head. A token's rows land at its position in every
//! head's plane; a token whose position is at or past the plane is appended
//! nowhere, and every other slot keeps what it held.
//!
//! Singles are held by their bits.
use crate::bits;
use crate::count::count_where;
use vstd::arithmetic::div_mod::lemma_fundamental_div_mod;
use vstd::arithmetic::div_mod::lemma_fundamental_div_mod_converse;
use vstd::prelude::*;

verus! {

/// The width of a head.
pub const HEAD: usize = 128;

/// What the planes are filled with before an append: an f16 NaN no conversion
/// writes, so a slot still holding it was not written.
pub const SENTINEL: u16 = 0xffff;

/// Band of a normalized value against the dump's, relative to it: ten roundings
/// of a single, by its bits.
pub const NORM_BAND: u32 = 0x3520_0000;

/// Band of a turned head against the dump's, relative to its largest value:
/// twenty roundings of a single, by its bits.
pub const ROPE_BAND: u32 = 0x35a0_0000;

/// Band of the turn's rule against the dump, in ulps.
pub const ROPE_ULP_BAND: u32 = 1;

// ------------------------------------------------------------ slots

/// The head of a plane slot.
pub open spec fn head_of(s: int, ctx: int) -> int {
    (s / 128) / ctx
}

/// The position of a plane slot.
pub open spec fn pos_of(s: int, ctx: int) -> int {
    (s / 128) % ctx
}

/// The slot of a head's value at a position.
pub open spec fn slot(h: int, p: int, d: int, ctx: int) -> int {
    (h * ctx + p) * 128 + d
}

/// The place of a token's value among the rows: token by token, head by head.
pub open spec fn row_at(t: int, h: int, d: int, n_kv: int) -> int {
    (t * n_kv + h) * 128 + d
}

/// Splitting a place of `outer` rows of `inner` heads of a width gives back what
/// it was made of.
proof fn lemma_split(a: int, b: int, d: int, inner: int)
    requires
        0 <= a,
        0 <= b < inner,
        0 <= d < 128,
    ensures
        ({
            let s = (a * inner + b) * 128 + d;
            &&& s % 128 == d
            &&& s / 128 == a * inner + b
            &&& (s / 128) % inner == b
            &&& (s / 128) / inner == a
        }),
{
    let s = (a * inner + b) * 128 + d;
    assert(a * inner >= 0) by (nonlinear_arith)
        requires
            a >= 0,
            inner > 0,
    ;
    lemma_fundamental_div_mod_converse(s, 128, a * inner + b, d);
    assert(a * inner == inner * a) by (nonlinear_arith);
    lemma_fundamental_div_mod_converse(a * inner + b, inner, a, b);
}

/// A place within `outer` rows of `inner` heads splits within them, and is made
/// of what it splits into.
proof fn lemma_within(s: int, outer: int, inner: int)
    requires
        0 < inner,
        0 <= s < outer * inner * 128,
    ensures
        0 <= s % 128 < 128,
        0 <= (s / 128) % inner < inner,
        0 <= (s / 128) / inner < outer,
        s == (((s / 128) / inner) * inner + (s / 128) % inner) * 128 + s % 128,
{
    let q = s / 128;
    lemma_fundamental_div_mod(s, 128);
    lemma_fundamental_div_mod(q, inner);
    let a = q / inner;
    assert(q < outer * inner);
    assert(a * inner == inner * a) by (nonlinear_arith);
    assert(a < outer) by (nonlinear_arith)
        requires
            q == inner * a + q % inner,
            q < outer * inner,
            0 <= q % inner,
            0 < inner,
    ;
    assert(a >= 0) by (nonlinear_arith)
        requires
            q == inner * a + q % inner,
            q >= 0,
            q % inner < inner,
            0 < inner,
    ;
}

/// A place made of parts within bounds lies within their product.
proof fn lemma_place_fits(a: int, b: int, d: int, outer: int, inner: int)
    requires
        0 <= a < outer,
        0 <= b < inner,
        0 <= d < 128,
    ensures
        0 <= (a * inner + b) * 128 + d < outer * inner * 128,
{
    assert(0 <= a * inner + b < outer * inner) by (nonlinear_arith)
        requires
            0 <= a < outer,
            0 <= b < inner,
    ;
}

// ------------------------------------------------------------ the append

/// What slot `s` holds after the first `n` tokens are appended: the last of
/// them at its position wins.
pub open spec fn held(
    plane: Seq<u16>,
    rows: Seq<u16>,
    pos: Seq<u32>,
    n_kv: int,
    ctx: int,
    n: int,
    s: int,
) -> u16
    decreases n,
{
    if n <= 0 {
        plane[s]
    } else if pos[n - 1] == pos_of(s, ctx) {
        rows[row_at(n - 1, head_of(s, ctx), s % 128, n_kv)]
    } else {
        held(plane, rows, pos, n_kv, ctx, n - 1, s)
    }
}

/// A plane after an append.
pub open spec fn appended(plane: Seq<u16>, rows: Seq<u16>, pos: Seq<u32>, n_kv: int, ctx: int) -> Seq<
    u16,
> {
    Seq::new(plane.len(), |s: int| held(plane, rows, pos, n_kv, ctx, pos.len() as int, s))
}

/// Rows and planes of the shape an append takes.
pub open spec fn shaped(plane: Seq<u16>, rows: Seq<u16>, pos: Seq<u32>, n_kv: int, ctx: int) -> bool {
    &&& 0 < n_kv
    &&& 0 < ctx
    &&& plane.len() == n_kv * ctx * 128
    &&& rows.len() == pos.len() * n_kv * 128
}

/// The value slot `s` holds after the append.
fn held_at(plane: &[u16], rows: &[u16], pos: &[u32], n_kv: usize, ctx: usize, s: usize) -> (r: u16)
    requires
        shaped(plane@, rows@, pos@, n_kv as int, ctx as int),
        s < plane@.len(),
    ensures
        r == held(plane@, rows@, pos@, n_kv as int, ctx as int, pos@.len() as int, s as int),
{
    proof {
        lemma_within(s as int, n_kv as int, ctx as int);
    }
    let q: usize = s / HEAD;
    let h: usize = q / ctx;
    let p: usize = q % ctx;
    let d: usize = s % HEAD;
    let row_count: usize = rows.len();
    let mut t: usize = pos.len();
    while t > 0
        invariant
            shaped(plane@, rows@, pos@, n_kv as int, ctx as int),
            row_count == rows@.len(),
            s < plane@.len(),
            h == head_of(s as int, ctx as int),
            p == pos_of(s as int, ctx as int),
            d == s % 128,
            h < n_kv,
            t <= pos@.len(),
            held(plane@, rows@, pos@, n_kv as int, ctx as int, pos@.len() as int, s as int) == held(
                plane@,
                rows@,
                pos@,
                n_kv as int,
                ctx as int,
                t as int,
                s as int,
            ),
        decreases t,
    {
        t -= 1;
        if pos[t] as usize == p && pos[t] as u64 == p as u64 {
            proof {
                lemma_place_fits(t as int, h as int, d as int, pos@.len() as int, n_kv as int);
                assert(0 <= t * n_kv <= t * n_kv + h <= (t * n_kv + h) * 128 + d) by (
                nonlinear_arith)
                    requires
                        0 <= t,
                        0 <= n_kv,
                        0 <= h,
                        0 <= d,
                ;
            }
            return rows[(t * n_kv + h) * HEAD + d];
        }
    }
    plane[s]
}

/// A plane after `rows` are appended at the tokens' positions.
pub fn append(plane: &[u16], rows: &[u16], pos: &[u32], n_kv: usize, ctx: usize) -> (r: Vec<u16>)
    requires
        shaped(plane@, rows@, pos@, n_kv as int, ctx as int),
    ensures
        r@ == appended(plane@, rows@, pos@, n_kv as int, ctx as int),
{
    let mut out: Vec<u16> = Vec::new();
    let mut s: usize = 0;
    while s < plane.len()
        invariant
            shaped(plane@, rows@, pos@, n_kv as int, ctx as int),
            s <= plane@.len(),
            out@ =~= appended(plane@, rows@, pos@, n_kv as int, ctx as int).take(s as int),
        decreases plane@.len() - s,
    {
        out.push(held_at(plane, rows, pos, n_kv, ctx, s));
        s += 1;
    }
    out
}

/// A plane with nothing written.
pub fn blank(n: usize) -> (r: Vec<u16>)
    ensures
        r@ == Seq::new(n as nat, |s: int| SENTINEL),
{
    let mut out: Vec<u16> = Vec::new();
    let mut i: usize = 0;
    while i < n
        invariant
            i <= n,
            out@ =~= Seq::new(i as nat, |s: int| SENTINEL),
        decreases n - i,
    {
        out.push(SENTINEL);
        i += 1;
    }
    out
}

// ------------------------------------------------------------ reading back

/// The tokens' rows of a plane.
pub open spec fn gathered(plane: Seq<u16>, pos: Seq<u32>, n_kv: int, ctx: int) -> Seq<u16> {
    Seq::new(
        (pos.len() * n_kv * 128) as nat,
        |i: int|
            plane[slot(
                (i / 128) % n_kv,
                pos[(i / 128) / n_kv] as int,
                i % 128,
                ctx,
            )],
    )
}

/// The rows a plane holds at the tokens' positions, token by token.
pub fn gather(plane: &[u16], pos: &[u32], n_kv: usize, ctx: usize) -> (r: Vec<u16>)
    requires
        0 < n_kv,
        0 < ctx,
        plane@.len() == n_kv * ctx * 128,
        pos@.len() * n_kv * 128 <= usize::MAX,
        forall|t: int| 0 <= t < pos@.len() ==> (#[trigger] pos@[t]) < ctx,
    ensures
        r@ == gathered(plane@, pos@, n_kv as int, ctx as int),
{
    let m: usize = pos.len();
    assert(0 <= m * n_kv <= m * n_kv * 128) by (nonlinear_arith)
        requires
            0 <= m,
            0 <= n_kv,
    ;
    let n: usize = m * n_kv * HEAD;
    let len: usize = plane.len();
    let mut out: Vec<u16> = Vec::new();
    let mut i: usize = 0;
    while i < n
        invariant
            0 < n_kv,
            0 < ctx,
            m == pos@.len(),
            n == m * n_kv * 128,
            len == plane@.len() == n_kv * ctx * 128,
            forall|t: int| 0 <= t < pos@.len() ==> (#[trigger] pos@[t]) < ctx,
            i <= n,
            out@ =~= gathered(plane@, pos@, n_kv as int, ctx as int).take(i as int),
        decreases n - i,
    {
        proof {
            lemma_within(i as int, m as int, n_kv as int);
        }
        let q: usize = i / HEAD;
        let t: usize = q / n_kv;
        let h: usize = q % n_kv;
        let d: usize = i % HEAD;
        let p: usize = pos[t] as usize;
        proof {
            lemma_place_fits(h as int, p as int, d as int, n_kv as int, ctx as int);
            assert(0 <= h * ctx <= h * ctx + p <= (h * ctx + p) * 128 + d) by (nonlinear_arith)
                requires
                    0 <= h,
                    0 <= ctx,
                    0 <= p,
                    0 <= d,
            ;
        }
        out.push(plane[(h * ctx + p) * HEAD + d]);
        i += 1;
    }
    out
}

/// An append puts every token's row where reading back finds it: over tokens at
/// distinct positions within the plane, reading back returns the rows.
pub proof fn law_a_read_back_is_what_was_appended(
    plane: Seq<u16>,
    rows: Seq<u16>,
    pos: Seq<u32>,
    n_kv: int,
    ctx: int,
)
    requires
        shaped(plane, rows, pos, n_kv, ctx),
        forall|t: int| 0 <= t < pos.len() ==> (#[trigger] pos[t]) < ctx,
        forall|t: int, u: int|
            0 <= t < u < pos.len() ==> (#[trigger] pos[t]) != (#[trigger] pos[u]),
    ensures
        gathered(appended(plane, rows, pos, n_kv, ctx), pos, n_kv, ctx) == rows,
{
    let got = gathered(appended(plane, rows, pos, n_kv, ctx), pos, n_kv, ctx);
    let m = pos.len() as int;
    assert forall|i: int| 0 <= i < got.len() implies got[i] == rows[i] by {
        lemma_within(i, m, n_kv);
        let t = (i / 128) / n_kv;
        let h = (i / 128) % n_kv;
        let d = i % 128;
        let p = pos[t] as int;
        let s = slot(h, p, d, ctx);
        lemma_place_fits(h, p, d, n_kv, ctx);
        lemma_split(h, p, d, ctx);
        lemma_held_is_the_token(plane, rows, pos, n_kv, ctx, m, s, t);
    }
    assert(got =~= rows);
}

/// A slot at a token's position holds that token's value, where no later token
/// stands there.
proof fn lemma_held_is_the_token(
    plane: Seq<u16>,
    rows: Seq<u16>,
    pos: Seq<u32>,
    n_kv: int,
    ctx: int,
    n: int,
    s: int,
    t: int,
)
    requires
        0 <= t < n <= pos.len(),
        pos[t] == pos_of(s, ctx),
        forall|u: int| t < u < pos.len() ==> (#[trigger] pos[u]) != pos[t],
    ensures
        held(plane, rows, pos, n_kv, ctx, n, s) == rows[row_at(t, head_of(s, ctx), s % 128, n_kv)],
    decreases n,
{
    if t < n - 1 {
        lemma_held_is_the_token(plane, rows, pos, n_kv, ctx, n - 1, s, t);
    }
}

/// A slot at no token's position keeps what it held.
proof fn lemma_held_is_kept(
    plane: Seq<u16>,
    rows: Seq<u16>,
    pos: Seq<u32>,
    n_kv: int,
    ctx: int,
    n: int,
    s: int,
)
    requires
        n <= pos.len(),
        forall|u: int| 0 <= u < n ==> (#[trigger] pos[u]) != pos_of(s, ctx),
    ensures
        held(plane, rows, pos, n_kv, ctx, n, s) == plane[s],
    decreases n,
{
    if n > 0 {
        lemma_held_is_kept(plane, rows, pos, n_kv, ctx, n - 1, s);
    }
}

// ------------------------------------------------------------ a position past the plane

/// A plane with the rows of one position as if never written.
pub open spec fn cleared(plane: Seq<u16>, ctx: int, p: int) -> Seq<u16> {
    Seq::new(
        plane.len(),
        |s: int|
            if pos_of(s, ctx) == p {
                SENTINEL
            } else {
                plane[s]
            },
    )
}

/// A plane with the rows of position `p` back at the sentinel.
pub fn clear_position(plane: &[u16], ctx: usize, p: usize) -> (r: Vec<u16>)
    requires
        0 < ctx,
    ensures
        r@ == cleared(plane@, ctx as int, p as int),
{
    let mut out: Vec<u16> = Vec::new();
    let mut s: usize = 0;
    while s < plane.len()
        invariant
            0 < ctx,
            s <= plane@.len(),
            out@ =~= cleared(plane@, ctx as int, p as int).take(s as int),
        decreases plane@.len() - s,
    {
        if (s / HEAD) % ctx == p {
            out.push(SENTINEL);
        } else {
            out.push(plane[s]);
        }
        s += 1;
    }
    out
}

/// Whether every slot of a position was written.
pub fn position_written(plane: &[u16], ctx: usize, p: usize) -> (r: bool)
    requires
        0 < ctx,
    ensures
        r == forall|s: int|
            0 <= s < plane@.len() && pos_of(s, ctx as int) == p ==> (#[trigger] plane@[s])
                != SENTINEL,
{
    let mut s: usize = 0;
    while s < plane.len()
        invariant
            0 < ctx,
            s <= plane@.len(),
            forall|j: int|
                0 <= j < s && pos_of(j, ctx as int) == p ==> (#[trigger] plane@[j]) != SENTINEL,
        decreases plane@.len() - s,
    {
        if (s / HEAD) % ctx == p && plane[s] == SENTINEL {
            assert(plane@[s as int] == SENTINEL && pos_of(s as int, ctx as int) == p);
            return false;
        }
        s += 1;
    }
    true
}

/// A token moved past the plane is appended nowhere: the plane is the clean
/// run's with that token's rows as if never written, where no other token
/// stands at its position.
pub proof fn law_a_position_past_the_plane_appends_nowhere(
    rows: Seq<u16>,
    pos: Seq<u32>,
    n_kv: int,
    ctx: int,
    past: u32,
)
    requires
        pos.len() > 0,
        0 < n_kv,
        0 < ctx <= past,
        forall|t: int| 0 <= t < pos.len() - 1 ==> (#[trigger] pos[t]) != pos.last(),
    ensures
        ({
            let plane = Seq::new((n_kv * ctx * 128) as nat, |s: int| SENTINEL);
            appended(plane, rows, pos.update(pos.len() - 1, past), n_kv, ctx) == cleared(
                appended(plane, rows, pos, n_kv, ctx),
                ctx,
                pos.last() as int,
            )
        }),
{
    let plane = Seq::new((n_kv * ctx * 128) as nat, |s: int| SENTINEL);
    let moved = pos.update(pos.len() - 1, past);
    let m = pos.len() as int;
    let a = appended(plane, rows, moved, n_kv, ctx);
    let b = cleared(appended(plane, rows, pos, n_kv, ctx), ctx, pos.last() as int);
    assert forall|s: int| 0 <= s < a.len() implies a[s] == b[s] by {
        let p = pos_of(s, ctx);
        lemma_fundamental_div_mod(s / 128, ctx);
        assert(0 <= p < ctx) by (nonlinear_arith)
            requires
                p == (s / 128) % ctx,
                0 < ctx,
        ;
        lemma_held_same(plane, rows, moved, pos, n_kv, ctx, m - 1, s);
        if pos.last() == p {
            lemma_held_is_kept(plane, rows, pos, n_kv, ctx, m - 1, s);
        }
    }
    assert(a =~= b);
}

/// Tokens that agree leave the same.
proof fn lemma_held_same(
    plane: Seq<u16>,
    rows: Seq<u16>,
    a: Seq<u32>,
    b: Seq<u32>,
    n_kv: int,
    ctx: int,
    n: int,
    s: int,
)
    requires
        n <= a.len(),
        n <= b.len(),
        forall|t: int| 0 <= t < n ==> (#[trigger] a[t]) == b[t],
    ensures
        held(plane, rows, a, n_kv, ctx, n, s) == held(plane, rows, b, n_kv, ctx, n, s),
    decreases n,
{
    if n > 0 {
        lemma_held_same(plane, rows, a, b, n_kv, ctx, n - 1, s);
    }
}

/// The largest of the first `n` positions.
pub open spec fn largest(pos: Seq<u32>, n: int) -> int
    decreases n,
{
    if n <= 0 {
        -1
    } else if pos[n - 1] > largest(pos, n - 1) {
        pos[n - 1] as int
    } else {
        largest(pos, n - 1)
    }
}

/// The rows a plane needs for positions: one past the largest, and one where
/// there is none.
pub fn ctx_for(pos: &[u32]) -> (r: u64)
    ensures
        pos@.len() == 0 ==> r == 1,
        pos@.len() > 0 ==> r == largest(pos@, pos@.len() as int) + 1,
        forall|t: int| 0 <= t < pos@.len() ==> (#[trigger] pos@[t]) < r,
{
    let mut r: u64 = 0;
    let mut i: usize = 0;
    while i < pos.len()
        invariant
            i <= pos@.len(),
            r == largest(pos@, i as int) + 1,
            r <= u32::MAX + 1,
            forall|t: int| 0 <= t < i ==> (#[trigger] pos@[t]) < r,
        decreases pos@.len() - i,
    {
        let p: u64 = pos[i] as u64;
        if p >= r {
            r = p + 1;
        }
        i += 1;
    }
    if pos.len() == 0 {
        return 1;
    }
    r
}

// ------------------------------------------------------------ against a dump

/// Whether two rounded rows agree wherever the singles they round do, over the
/// shortest of the four.
pub fn agree_on_equal(x: &[u32], y: &[u32], c: &[u16], d: &[u16]) -> (r: bool)
    ensures
        r == forall|i: int|
            0 <= i < x@.len() && i < y@.len() && i < c@.len() && i < d@.len() && (#[trigger] x@[i])
                == y@[i] ==> c@[i] == d@[i],
{
    let mut i: usize = 0;
    while i < x.len() && i < y.len() && i < c.len() && i < d.len()
        invariant
            i <= x@.len(),
            i <= y@.len(),
            i <= c@.len(),
            i <= d@.len(),
            forall|j: int| 0 <= j < i && (#[trigger] x@[j]) == y@[j] ==> c@[j] == d@[j],
        decreases x@.len() - i,
    {
        if x[i] == y[i] && c[i] != d[i] {
            assert(x@[i as int] == y@[i as int]);
            return false;
        }
        i += 1;
    }
    true
}

/// The indices at which two rows hold the same half.
pub open spec fn same_half(a: Seq<u16>, b: Seq<u16>) -> spec_fn(int) -> bool {
    |i: int| a[i] == b[i]
}

/// Halves of `a` and `b` that are the same, index by index over the shorter of
/// the two.
pub fn same_halves(a: &[u16], b: &[u16]) -> (r: usize)
    ensures
        r == count_where(
            if a@.len() < b@.len() {
                a@.len() as int
            } else {
                b@.len() as int
            },
            same_half(a@, b@),
        ),
{
    let n: usize = if a.len() < b.len() {
        a.len()
    } else {
        b.len()
    };
    let mut r: usize = 0;
    let mut i: usize = 0;
    while i < n
        invariant
            i <= n,
            n <= a@.len(),
            n <= b@.len(),
            r <= i,
            r == count_where(i as int, same_half(a@, b@)),
        decreases n - i,
    {
        if a[i] == b[i] {
            r += 1;
        }
        i += 1;
    }
    r
}

/// Whether a relative error is within a band: a number, and no larger.
pub fn within(rel: u32, band: u32) -> (r: bool)
    requires
        !bits::nan(band),
    ensures
        r == (!bits::nan(rel) && bits::order_key(rel) <= bits::order_key(band)),
{
    !bits::is_nan(rel) && !bits::is_less(band, rel)
}

/// What one layer of the rope gate found.
#[derive(Clone, Copy, Debug, PartialEq, Eq, Structural)]
pub struct RopeSite {
    /// The kernel's heads are the host rule's bit for bit.
    pub exact: bool,
    /// The planes are the host rule's slot for slot.
    pub planes_exact: bool,
    /// A rerun is bit-identical.
    pub rerun: bool,
    /// The engine's table is the recipe's.
    pub table_is_recipe: bool,
    /// Ulps between the turn's rule and the dump.
    pub sim_ulps: u32,
    /// The append's rule gives the dump's rows.
    pub append_same: bool,
    /// The turned heads' relative error, by its bits.
    pub rel: u32,
    /// The value rows are the dump's.
    pub v_same: bool,
    /// The key rows are the dump's wherever the keys are.
    pub k_on_equal: bool,
}

impl RopeSite {
    /// Whether every claim of the layer holds.
    pub fn passes(&self) -> (r: bool)
        ensures
            r == (self.exact && self.planes_exact && self.rerun && self.table_is_recipe
                && self.sim_ulps <= ROPE_ULP_BAND && self.append_same && !bits::nan(self.rel)
                && bits::order_key(self.rel) <= bits::order_key(ROPE_BAND) && self.v_same
                && self.k_on_equal),
    {
        assert(!bits::nan(ROPE_BAND));
        self.exact && self.planes_exact && self.rerun && self.table_is_recipe && self.sim_ulps
            <= ROPE_ULP_BAND && self.append_same && within(self.rel, ROPE_BAND) && self.v_same
            && self.k_on_equal
    }
}

/// What one layer of the norm gate found.
#[derive(Clone, Copy, Debug, PartialEq, Eq, Structural)]
pub struct NormSite {
    /// The kernel's heads are the host rule's bit for bit.
    pub exact: bool,
    /// A rerun is bit-identical.
    pub rerun: bool,
    /// Query values of the dump's rule that are the dump's, and how many there are.
    pub sim_q: usize,
    pub n_q: usize,
    /// Key values of the dump's rule that are the dump's, and how many there are.
    pub sim_k: usize,
    pub n_k: usize,
    /// The relative errors, by their bits.
    pub rel_q: u32,
    pub rel_k: u32,
}

impl NormSite {
    /// Whether every claim of the layer holds.
    pub fn passes(&self) -> (r: bool)
        ensures
            r == (self.exact && self.rerun && self.sim_q == self.n_q && self.sim_k == self.n_k
                && !bits::nan(self.rel_q) && bits::order_key(self.rel_q) <= bits::order_key(
                NORM_BAND,
            ) && !bits::nan(self.rel_k) && bits::order_key(self.rel_k) <= bits::order_key(
                NORM_BAND,
            )),
    {
        assert(!bits::nan(NORM_BAND));
        self.exact && self.rerun && self.sim_q == self.n_q && self.sim_k == self.n_k && within(
            self.rel_q,
            NORM_BAND,
        ) && within(self.rel_k, NORM_BAND)
    }
}

/// Whether a layer's line is printed: a failing one, the first and the last.
pub fn speaks(pass: bool, layer: usize, n_layer: usize) -> (r: bool)
    ensures
        r == (!pass || layer == 0 || layer + 1 == n_layer),
{
    !pass || layer == 0 || (n_layer > 0 && layer == n_layer - 1)
}

/// What a launch at a position past the cache showed.
#[derive(Clone, Copy, Debug, PartialEq, Eq, Structural)]
pub struct CachePos {
    /// The fault word was clean before the first run.
    pub clean_before: bool,
    /// The fault word was clean after the clean run.
    pub clean_after: bool,
    /// The word names the launch's layer and the position's site.
    pub named: bool,
    /// The clean run wrote the token's rows.
    pub clean_wrote: bool,
    /// The planes are the clean run's with those rows unwritten.
    pub planes: bool,
    /// The turned heads are the clean run's.
    pub heads: bool,
    /// A clean rerun is the clean run, and the word is clean.
    pub clean_again: bool,
}

impl CachePos {
    /// Whether the position clause held.
    pub fn held(&self) -> (r: bool)
        ensures
            r == (self.clean_before && self.clean_after && self.named && self.clean_wrote
                && self.planes && self.heads && self.clean_again),
    {
        self.clean_before && self.clean_after && self.named && self.clean_wrote && self.planes
            && self.heads && self.clean_again
    }
}

// ------------------------------------------------------------ slots

/// An append writes the rows where they belong: value `d` of head `h` at position
/// `p` of a plane laid out head after head is that of the last token at that
/// position, whose rows lie token after token; a position no token has is left as
/// it was.
pub proof fn law_an_append_writes_its_slots(
    plane: Seq<u16>,
    rows: Seq<u16>,
    pos: Seq<u32>,
    n_kv: int,
    ctx: int,
    h: int,
    p: int,
    d: int,
    t: int,
)
    requires
        shaped(plane, rows, pos, n_kv, ctx),
        0 <= h < n_kv,
        0 <= p < ctx,
        0 <= d < 128,
    ensures
        0 <= t < pos.len() && pos[t] == p && (forall|u: int|
            t < u < pos.len() ==> (#[trigger] pos[u]) != p) ==> appended(
            plane,
            rows,
            pos,
            n_kv,
            ctx,
        )[(h * ctx + p) * 128 + d] == rows[(t * n_kv + h) * 128 + d],
        (forall|u: int| 0 <= u < pos.len() ==> (#[trigger] pos[u]) != p) ==> appended(
            plane,
            rows,
            pos,
            n_kv,
            ctx,
        )[(h * ctx + p) * 128 + d] == plane[(h * ctx + p) * 128 + d],
{
    let s = (h * ctx + p) * 128 + d;
    assert(s / 128 == h * ctx + p && s % 128 == d);
    vstd::arithmetic::div_mod::lemma_fundamental_div_mod_converse(h * ctx + p, ctx, h, p);
    assert(0 <= s && s < plane.len()) by {
        assert(h * ctx + p < n_kv * ctx && 0 <= h * ctx) by (nonlinear_arith)
            requires
                0 <= h < n_kv,
                0 <= p < ctx,
        ;
    }
    lemma_held_is(plane, rows, pos, n_kv, ctx, pos.len() as int, s, t);
}

proof fn lemma_held_is(
    plane: Seq<u16>,
    rows: Seq<u16>,
    pos: Seq<u32>,
    n_kv: int,
    ctx: int,
    n: int,
    s: int,
    t: int,
)
    requires
        0 <= n <= pos.len(),
    ensures
        0 <= t < n && pos[t] == pos_of(s, ctx) && (forall|u: int|
            t < u < n ==> (#[trigger] pos[u]) != pos_of(s, ctx)) ==> held(
            plane,
            rows,
            pos,
            n_kv,
            ctx,
            n,
            s,
        ) == rows[row_at(t, head_of(s, ctx), s % 128, n_kv)],
        (forall|u: int| 0 <= u < n ==> (#[trigger] pos[u]) != pos_of(s, ctx)) ==> held(
            plane,
            rows,
            pos,
            n_kv,
            ctx,
            n,
            s,
        ) == plane[s],
    decreases n,
{
    if n > 0 && pos[n - 1] != pos_of(s, ctx) {
        lemma_held_is(plane, rows, pos, n_kv, ctx, n - 1, s, t);
    }
}

/// A gather reads the same slots: value `d` of head `h` of token `t` is that of the
/// plane's head at the token's position.
pub proof fn law_a_gather_reads_its_slots(
    plane: Seq<u16>,
    pos: Seq<u32>,
    n_kv: int,
    ctx: int,
    t: int,
    h: int,
    d: int,
)
    requires
        0 <= t < pos.len(),
        0 <= h < n_kv,
        0 <= d < 128,
    ensures
        gathered(plane, pos, n_kv, ctx).len() == pos.len() * n_kv * 128,
        gathered(plane, pos, n_kv, ctx)[(t * n_kv + h) * 128 + d] == plane[(h * ctx + pos[t]) * 128
            + d],
{
    let i = (t * n_kv + h) * 128 + d;
    assert(i / 128 == t * n_kv + h && i % 128 == d);
    vstd::arithmetic::div_mod::lemma_fundamental_div_mod_converse(t * n_kv + h, n_kv, t, h);
    let m = pos.len() as int;
    assert(t * n_kv + h < m * n_kv && 0 <= t * n_kv && 0 <= m * n_kv) by (nonlinear_arith)
        requires
            0 <= t < m,
            0 <= h < n_kv,
    ;
    assert(0 <= m * n_kv * 128);
}

/// Clearing a position clears that position of every head and nothing else.
pub proof fn law_clearing_takes_one_position(
    plane: Seq<u16>,
    n_kv: int,
    ctx: int,
    p: int,
    h: int,
    q: int,
    d: int,
)
    requires
        plane.len() == n_kv * ctx * 128,
        0 <= h < n_kv,
        0 <= q < ctx,
        0 <= d < 128,
    ensures
        cleared(plane, ctx, p)[(h * ctx + q) * 128 + d] == (if q == p {
            0xffffu16
        } else {
            plane[(h * ctx + q) * 128 + d]
        }),
{
    let s = (h * ctx + q) * 128 + d;
    assert(s / 128 == h * ctx + q && s % 128 == d);
    vstd::arithmetic::div_mod::lemma_fundamental_div_mod_converse(h * ctx + q, ctx, h, q);
    assert(h * ctx + q < n_kv * ctx && 0 <= h * ctx) by (nonlinear_arith)
        requires
            0 <= h < n_kv,
            0 <= q < ctx,
    ;
}

/// The cache a set of positions needs ends at the largest of them.
pub proof fn law_the_largest_position_is_one(pos: Seq<u32>, n: int)
    requires
        0 < n <= pos.len(),
    ensures
        exists|t: int| 0 <= t < n && #[trigger] pos[t] == largest(pos, n),
        forall|t: int| 0 <= t < n ==> #[trigger] pos[t] <= largest(pos, n),
    decreases n,
{
    if n == 1 {
        reveal_with_fuel(largest, 2);
        assert(pos[0] == largest(pos, 1));
    } else {
        law_the_largest_position_is_one(pos, n - 1);
        let t = choose|t: int| 0 <= t < n - 1 && #[trigger] pos[t] == largest(pos, n - 1);
        if pos[n - 1] > largest(pos, n - 1) {
            assert(pos[n - 1] == largest(pos, n));
        } else {
            assert(pos[t] == largest(pos, n));
        }
    }
}

/// The bands are ten and twenty roundings of a single: as many times its unit of
/// rounding, the 24th halving of one.
pub proof fn law_the_bands_count_roundings()
    ensures
        ({
            let one = vstd::arithmetic::power2::pow2(149) as int;
            &&& 16777216 * bits::value_units(NORM_BAND) == 10 * one
            &&& 16777216 * bits::value_units(ROPE_BAND) == 20 * one
            &&& ROPE_ULP_BAND == 1
        }),
{
    let p = vstd::arithmetic::power2::pow2(105) as int;
    vstd::arithmetic::power2::lemma2_to64();
    vstd::arithmetic::power2::lemma_pow2_adds(105, 32);
    vstd::arithmetic::power2::lemma_pow2_adds(137, 12);
    vstd::arithmetic::power2::lemma_pow2_adds(105, 1);
    assert(bits::value_units(NORM_BAND) == (0x20_0000 + 0x80_0000) * p);
    assert(bits::value_units(ROPE_BAND) == (0x20_0000 + 0x80_0000) * (p * 2));
}

} // verus!
