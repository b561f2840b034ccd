//! The image encoder's host rules: the comparisons of a tap with its rule, the
//! activation sweep, and the shapes and rearrangements the rules of block 0 and
//! the aligner read their inputs through.
//!
//! The values are bf16 by their bits.
use crate::count::count_where;
use crate::rank;
use crate::rank::is_top;
use crate::text;
use crate::text::decimal;
use vstd::prelude::*;

verus! {

/// Values of the aligner's activation that may differ from their rule.
pub const GELU_DIFFER_PIN: usize = 0;

/// Values of the gated activation that may differ from their rule.
pub const SILU_DIFFER_PIN: usize = 0;

/// Values of the sweep that may differ from the rule.
pub const GELU_SWEEP_PIN: usize = 4;

// ------------------------------------------------------------ comparisons

/// The shorter of two lengths.
pub open spec fn shorter(a: Seq<u16>, b: Seq<u16>) -> int {
    if a.len() < b.len() {
        a.len() as int
    } else {
        b.len() as int
    }
}

/// The indices at which two lists differ.
pub open spec fn differs(a: Seq<u16>, b: Seq<u16>) -> spec_fn(int) -> bool {
    |i: int| a[i] != b[i]
}

/// How many values differ, over the shorter of the two.
pub fn differing(a: &[u16], b: &[u16]) -> (r: usize)
    ensures
        r == count_where(shorter(a@, b@), differs(a@, b@)),
        r <= shorter(a@, b@),
{
    let n: usize = if a.len() < b.len() {
        a.len()
    } else {
        b.len()
    };
    let mut r: usize = 0;
    let mut i: usize = 0;
    while i < n
        invariant
            i <= n,
            n <= a@.len(),
            n <= b@.len(),
            r <= i,
            r == count_where(i as int, differs(a@, b@)),
        decreases n - i,
    {
        if a[i] != b[i] {
            r += 1;
        }
        i += 1;
    }
    r
}

/// How far a tap is from a rule it must equal: the values that differ, and those
/// one list has more.
pub open spec fn exact_distance(got: Seq<u16>, want: Seq<u16>) -> int {
    count_where(shorter(got, want), differs(got, want)) + (if got.len() < want.len() {
        want.len() - got.len()
    } else {
        got.len() - want.len()
    })
}

/// A bit-exact rule: the values that differ from it.
pub fn exact_check(got: &[u16], want: &[u16]) -> (r: usize)
    ensures
        r == exact_distance(got@, want@),
{
    let d: usize = differing(got, want);
    let ng: usize = got.len();
    let nw: usize = want.len();
    if ng < nw {
        d + (nw - ng)
    } else {
        d + (ng - nw)
    }
}

/// Nothing is counted only where nothing is there to count.
proof fn lemma_none_counted(n: int, p: spec_fn(int) -> bool, i: int)
    requires
        0 <= i < n,
        count_where(n, p) == 0,
    ensures
        !p(i),
    decreases n,
{
    if i < n - 1 {
        lemma_none_counted(n - 1, p, i);
    }
}

/// Nothing there to count is counted nothing.
proof fn lemma_counted_none(n: int, p: spec_fn(int) -> bool)
    requires
        forall|i: int| 0 <= i < n ==> !#[trigger] p(i),
    ensures
        count_where(n, p) == 0,
    decreases n,
{
    if n > 0 {
        lemma_counted_none(n - 1, p);
    }
}

/// A bit-exact rule is held exactly by the list that equals it.
pub proof fn law_exact_means_equal(got: Seq<u16>, want: Seq<u16>)
    ensures
        exact_distance(got, want) == 0 <==> got == want,
{
    let p = differs(got, want);
    let n = shorter(got, want);
    if exact_distance(got, want) == 0 {
        assert forall|i: int| 0 <= i < got.len() implies got[i] == want[i] by {
            lemma_none_counted(n, p, i);
        }
        assert(got =~= want);
    }
    if got == want {
        lemma_counted_none(n, p);
    }
}

/// Two values one step apart or less: neighbours of one sign.
pub open spec fn near(a: u16, b: u16) -> bool {
    &&& (a >= 0x8000) == (b >= 0x8000)
    &&& -1 <= a - b <= 1
}

/// The indices at which two lists differ by more than one step.
pub open spec fn far(a: Seq<u16>, b: Seq<u16>) -> spec_fn(int) -> bool {
    |i: int| a[i] != b[i] && !near(a[i], b[i])
}

/// What a rule the device's library differs from by a step showed.
#[derive(Clone, Copy, Debug, PartialEq, Eq, Structural)]
pub struct Near {
    pub differ: usize,
    /// Those by more than one step.
    pub far: usize,
    pub pass: bool,
}

/// Whether two values are one step apart or less.
fn is_near(a: u16, b: u16) -> (r: bool)
    ensures
        r == near(a, b),
{
    (a >= 0x8000) == (b >= 0x8000) && (if a < b {
        b - a <= 1
    } else {
        a - b <= 1
    })
}

/// A rule the device's library differs from: at most `pin` values differ, none
/// by more than one step.
pub fn near_check(got: &[u16], want: &[u16], pin: usize) -> (r: Near)
    ensures
        r.differ == count_where(shorter(got@, want@), differs(got@, want@)),
        r.far == count_where(shorter(got@, want@), far(got@, want@)),
        r.pass == (got@.len() == want@.len() && r.differ <= pin && r.far == 0),
{
    let differ: usize = differing(got, want);
    let n: usize = if got.len() < want.len() {
        got.len()
    } else {
        want.len()
    };
    let mut wide: usize = 0;
    let mut i: usize = 0;
    while i < n
        invariant
            i <= n,
            n <= got@.len(),
            n <= want@.len(),
            wide <= i,
            wide == count_where(i as int, far(got@, want@)),
        decreases n - i,
    {
        if got[i] != want[i] && !is_near(got[i], want[i]) {
            wide += 1;
        }
        i += 1;
    }
    Near { differ, far: wide, pass: got.len() == want.len() && differ <= pin && wide == 0 }
}

// ------------------------------------------------------------ the sweep

/// A zero or subnormal value: its exponent bits are 0.
pub open spec fn tiny(x: u16) -> bool {
    (x / 128) % 256 == 0
}

/// Every bf16 value in [-8, 8], by its bits: the positive ones up, then the
/// negative ones down.
pub open spec fn swept() -> Seq<u16> {
    Seq::new(
        33282,
        |i: int|
            if i < 16641 {
                i as u16
            } else {
                (0x8000 + (i - 16641)) as u16
            },
    )
}

/// The sweep's inputs.
pub fn sweep_inputs() -> (r: Vec<u16>)
    ensures
        r@ == swept(),
{
    let mut out: Vec<u16> = Vec::new();
    let mut i: u32 = 0;
    while i < 33282
        invariant
            i <= 33282,
            out@ =~= swept().take(i as int),
        decreases 33282 - i,
    {
        let x: u16 = if i < 16641 {
            i as u16
        } else {
            (0x8000 + (i - 16641)) as u16
        };
        out.push(x);
        i += 1;
    }
    out
}

/// The sweep sees every value whose magnitude is at most that of 8 once, and no
/// other.
pub proof fn law_the_sweep_is_every_value_once(x: u16)
    ensures
        x % 0x8000 <= 0x4100 <==> swept().contains(x),
        forall|i: int, j: int|
            0 <= i < j < 33282 ==> (#[trigger] swept()[i]) != (#[trigger] swept()[j]),
{
    let s = swept();
    if x % 0x8000 <= 0x4100 {
        if x < 0x8000 {
            assert(s[x as int] == x);
        } else {
            assert(s[16641 + (x - 0x8000)] == x);
        }
    }
    if s.contains(x) {
        let i = choose|i: int| 0 <= i < s.len() && s[i] == x;
        assert(x % 0x8000 <= 0x4100);
    }
}

/// Each input beside a zero.
pub open spec fn beside_zeros(xs: Seq<u16>) -> Seq<u16> {
    Seq::new(
        2 * xs.len(),
        |i: int|
            if i % 2 == 0 {
                xs[i / 2]
            } else {
                0
            },
    )
}

/// The product's rows that put each input into its own row: `(x, 0)`.
pub fn sweep_rows(xs: &[u16]) -> (r: Vec<u16>)
    ensures
        r@ == beside_zeros(xs@),
{
    let mut out: Vec<u16> = Vec::new();
    let mut i: usize = 0;
    while i < xs.len()
        invariant
            i <= xs@.len(),
            out@ =~= beside_zeros(xs@).take(2 * i),
        decreases xs@.len() - i,
    {
        out.push(xs[i]);
        out.push(0);
        i += 1;
    }
    out
}

/// What the sweep without an activation showed: each normal value must come back
/// as itself; the zero and subnormal ones are counted, not gated.
#[derive(Clone, Copy, Debug, PartialEq, Eq, Structural)]
pub struct Identity {
    pub bad_normal: usize,
    pub bad_tiny: usize,
    pub n_tiny: usize,
}

/// The indices whose normal value does not come back.
pub open spec fn lost_normal(xs: Seq<u16>, ys: Seq<u16>) -> spec_fn(int) -> bool {
    |i: int| xs[i] != ys[i] && !tiny(xs[i])
}

/// The indices whose zero or subnormal value does not come back.
pub open spec fn lost_tiny(xs: Seq<u16>, ys: Seq<u16>) -> spec_fn(int) -> bool {
    |i: int| xs[i] != ys[i] && tiny(xs[i])
}

/// The indices of the zero and subnormal values.
pub open spec fn tiny_at(xs: Seq<u16>) -> spec_fn(int) -> bool {
    |i: int| tiny(xs[i])
}

/// The sweep without an activation against its inputs.
pub fn identity(xs: &[u16], ys: &[u16]) -> (r: Identity)
    requires
        xs@.len() == ys@.len(),
    ensures
        r.bad_normal == count_where(xs@.len() as int, lost_normal(xs@, ys@)),
        r.bad_tiny == count_where(xs@.len() as int, lost_tiny(xs@, ys@)),
        r.n_tiny == count_where(xs@.len() as int, tiny_at(xs@)),
{
    let mut bad_normal: usize = 0;
    let mut bad_tiny: usize = 0;
    let mut n_tiny: usize = 0;
    let mut i: usize = 0;
    while i < xs.len()
        invariant
            i <= xs@.len() == ys@.len(),
            bad_normal <= i,
            bad_tiny <= i,
            n_tiny <= i,
            bad_normal == count_where(i as int, lost_normal(xs@, ys@)),
            bad_tiny == count_where(i as int, lost_tiny(xs@, ys@)),
            n_tiny == count_where(i as int, tiny_at(xs@)),
        decreases xs@.len() - i,
    {
        let small: bool = (xs[i] / 128) % 256 == 0;
        if small {
            n_tiny += 1;
        }
        if xs[i] != ys[i] {
            if small {
                bad_tiny += 1;
            } else {
                bad_normal += 1;
            }
        }
        i += 1;
    }
    Identity { bad_normal, bad_tiny, n_tiny }
}

/// What the activation's sweep showed over the normal values.
#[derive(Clone, Copy, Debug, PartialEq, Eq, Structural)]
pub struct Sweep {
    pub differ: usize,
    /// Those neither one step nor a rounding of the cancelled sum away.
    pub outside: usize,
    pub pass: bool,
}

/// The indices whose normal value's activation differs from its rule.
pub open spec fn sweep_differs(xs: Seq<u16>, ys: Seq<u16>, want: Seq<u16>) -> spec_fn(int) -> bool {
    |i: int| !tiny(xs[i]) && ys[i] != want[i]
}

/// The indices that differ by neither a step nor a rounding.
pub open spec fn sweep_outside(
    xs: Seq<u16>,
    ys: Seq<u16>,
    want: Seq<u16>,
    close: Seq<bool>,
) -> spec_fn(int) -> bool {
    |i: int| !tiny(xs[i]) && ys[i] != want[i] && !near(ys[i], want[i]) && !close[i]
}

/// The activation's sweep against its rule: `close` says of each value whether
/// it is within a rounding of the sum that cancels.
pub fn sweep(xs: &[u16], ys: &[u16], want: &[u16], close: &[bool]) -> (r: Sweep)
    requires
        ys@.len() == xs@.len(),
        want@.len() == xs@.len(),
        close@.len() == xs@.len(),
    ensures
        r.differ == count_where(xs@.len() as int, sweep_differs(xs@, ys@, want@)),
        r.outside == count_where(xs@.len() as int, sweep_outside(xs@, ys@, want@, close@)),
        r.pass == (r.differ <= GELU_SWEEP_PIN && r.outside == 0),
{
    let mut differ: usize = 0;
    let mut outside: usize = 0;
    let mut i: usize = 0;
    while i < xs.len()
        invariant
            i <= xs@.len(),
            ys@.len() == xs@.len(),
            want@.len() == xs@.len(),
            close@.len() == xs@.len(),
            differ <= i,
            outside <= i,
            differ == count_where(i as int, sweep_differs(xs@, ys@, want@)),
            outside == count_where(i as int, sweep_outside(xs@, ys@, want@, close@)),
        decreases xs@.len() - i,
    {
        if (xs[i] / 128) % 256 != 0 && ys[i] != want[i] {
            differ += 1;
            if !is_near(ys[i], want[i]) && !close[i] {
                outside += 1;
            }
        }
        i += 1;
    }
    Sweep { differ, outside, pass: differ <= GELU_SWEEP_PIN && outside == 0 }
}

// ------------------------------------------------------------ block 0

/// The taps the host rules read, in the order they are asked for.
pub open spec fn rule_tap(i: int, n_layer: nat) -> Seq<char> {
    if i == 0 {
        "embed"@
    } else if i == 1 {
        "blk0.norm1"@
    } else if i == 2 {
        "blk0.qkv"@
    } else if i == 3 {
        "blk0.qrot"@
    } else if i == 4 {
        "blk0.krot"@
    } else if i == 5 {
        "blk0.sdpa"@
    } else if i == 6 {
        "blk0.attn"@
    } else if i == 7 {
        "blk0.resid1"@
    } else if i == 8 {
        "blk0.norm2"@
    } else if i == 9 {
        "blk0.w1"@
    } else if i == 10 {
        "blk0.act"@
    } else if i == 11 {
        "blk0.mlp"@
    } else if i == 12 {
        "blk0"@
    } else if i == 13 {
        "blk"@ + decimal((n_layer - 1) as nat)
    } else if i == 14 {
        "vit"@
    } else if i == 15 {
        "aligner.x"@
    } else if i == 16 {
        "aligner.w1"@
    } else {
        "aligner.h"@
    }
}

/// A tap the host rules read.
pub fn rule_tap_name(i: usize, n_layer: u64) -> (r: String)
    requires
        i < 18,
        0 < n_layer,
    ensures
        r@ == rule_tap(i as int, n_layer as nat),
{
    if i == 13 {
        let mut cs: Vec<char> = text::chars_of("blk");
        text::push_decimal(&mut cs, n_layer - 1);
        return text::string_of(cs.as_slice());
    }
    let s: &'static str = match i {
        0 => "embed",
        1 => "blk0.norm1",
        2 => "blk0.qkv",
        3 => "blk0.qrot",
        4 => "blk0.krot",
        5 => "blk0.sdpa",
        6 => "blk0.attn",
        7 => "blk0.resid1",
        8 => "blk0.norm2",
        9 => "blk0.w1",
        10 => "blk0.act",
        11 => "blk0.mlp",
        12 => "blk0",
        14 => "vit",
        15 => "aligner.x",
        16 => "aligner.w1",
        _ => "aligner.h",
    };
    text::string_of(text::chars_of(s).as_slice())
}

/// A tap was taken.
pub open spec fn taken(have: Seq<String>, tap: Seq<char>) -> bool {
    exists|i: int| 0 <= i < have.len() && (#[trigger] have[i])@ == tap
}

/// The first tap from `at` on that was not taken.
pub open spec fn first_missing(have: Seq<String>, n_layer: nat, at: int) -> Option<int>
    decreases 18 - at,
{
    if at < 0 || at >= 18 {
        None
    } else if !taken(have, rule_tap(at, n_layer)) {
        Some(at)
    } else {
        first_missing(have, n_layer, at + 1)
    }
}

/// The index of the first tap the host rules read that was not taken.
pub fn missing_tap(have: &[String], n_layer: u64) -> (r: Option<usize>)
    requires
        0 < n_layer,
    ensures
        match r {
            Some(i) => i < 18 && first_missing(have@, n_layer as nat, 0) == Some(i as int),
            None => first_missing(have@, n_layer as nat, 0) is None,
        },
{
    let mut i: usize = 0;
    while i < 18
        invariant
            0 < n_layer,
            i <= 18,
            first_missing(have@, n_layer as nat, 0) == first_missing(
                have@,
                n_layer as nat,
                i as int,
            ),
        decreases 18 - i,
    {
        let tap: String = rule_tap_name(i, n_layer);
        let mut found: bool = false;
        let mut k: usize = 0;
        while k < have.len()
            invariant
                k <= have@.len(),
                found == exists|j: int| 0 <= j < k && (#[trigger] have@[j])@ == tap@,
            decreases have@.len() - k,
        {
            if text::same_str(have[k].as_str(), tap.as_str()) {
                found = true;
            }
            k += 1;
        }
        if !found {
            return Some(i);
        }
        i += 1;
    }
    None
}

/// The encoder's sizes the rules read.
#[derive(Clone, Copy, Debug, PartialEq, Eq, Structural)]
pub struct Sizes {
    pub dim: u64,
    pub ff: u64,
    pub out_dim: u64,
    pub patch: u64,
    pub downsample: u64,
}

/// A product of the chain: its rows, its columns and its depth.
#[derive(Clone, Copy, Debug)]
pub struct Product {
    pub name: &'static str,
    pub m: u64,
    pub n: u64,
    pub k: u64,
}

/// A product, by its characters.
pub ghost struct ProductView {
    pub name: Seq<char>,
    pub m: int,
    pub n: int,
    pub k: int,
}

impl View for Product {
    type V = ProductView;

    open spec fn view(&self) -> ProductView {
        ProductView { name: self.name@, m: self.m as int, n: self.n as int, k: self.k as int }
    }
}

/// The smallest number of groups of `r` that hold `n`.
pub open spec fn groups(n: int, r: int) -> int {
    (n + r - 1) / r
}

/// The aligner's rows of a grid: the grid's cells of `r` by `r` patches.
pub open spec fn aligner_rows_of(h: int, w: int, r: int) -> int {
    groups(h, r) * groups(w, r)
}

/// The products of block 0 and of the aligner, in chain order, on a grid of `h`
/// by `w` patches.
pub open spec fn product(s: Sizes, h: int, w: int, i: int) -> ProductView {
    let n = h * w;
    let rows = aligner_rows_of(h, w, s.downsample as int);
    if i == 0 {
        ProductView {
            name: "patch_embed"@,
            m: n,
            n: s.dim as int,
            k: 3 * (s.patch * s.patch),
        }
    } else if i == 1 {
        ProductView { name: "blk0.wqkv"@, m: n, n: 3 * s.dim, k: s.dim as int }
    } else if i == 2 {
        ProductView { name: "blk0.wo"@, m: n, n: s.dim as int, k: s.dim as int }
    } else if i == 3 {
        ProductView { name: "blk0.w1"@, m: n, n: 2 * s.ff, k: s.dim as int }
    } else if i == 4 {
        ProductView { name: "blk0.w2"@, m: n, n: s.dim as int, k: s.ff as int }
    } else if i == 5 {
        ProductView {
            name: "aligner.w1"@,
            m: rows,
            n: s.out_dim as int,
            k: s.dim * (s.downsample * s.downsample),
        }
    } else {
        ProductView { name: "aligner.w2"@, m: rows, n: s.out_dim as int, k: s.out_dim as int }
    }
}

/// The sizes' products fit 64 bits.
pub open spec fn sizes_fit(s: Sizes, h: int, w: int) -> bool {
    &&& 0 < s.downsample
    &&& h * w <= u64::MAX
    &&& h + s.downsample <= u64::MAX
    &&& w + s.downsample <= u64::MAX
    &&& aligner_rows_of(h, w, s.downsample as int) <= u64::MAX
    &&& s.patch * s.patch <= u64::MAX
    &&& 3 * (s.patch * s.patch) <= u64::MAX
    &&& 3 * s.dim <= u64::MAX
    &&& 2 * s.ff <= u64::MAX
    &&& s.downsample * s.downsample <= u64::MAX
    &&& s.dim * (s.downsample * s.downsample) <= u64::MAX
}

/// The aligner's rows of a grid.
pub fn aligner_rows(h: u64, w: u64, r: u64) -> (n: u64)
    requires
        0 < r,
        h + r <= u64::MAX,
        w + r <= u64::MAX,
        aligner_rows_of(h as int, w as int, r as int) <= u64::MAX,
    ensures
        n == aligner_rows_of(h as int, w as int, r as int),
{
    ((h + (r - 1)) / r) * ((w + (r - 1)) / r)
}

/// The products of block 0 and of the aligner.
pub fn products(s: &Sizes, h: u64, w: u64) -> (r: Vec<Product>)
    requires
        sizes_fit(*s, h as int, w as int),
    ensures
        r@.len() == 7,
        forall|i: int| 0 <= i < 7 ==> (#[trigger] r@[i])@ == product(*s, h as int, w as int, i),
{
    let n: u64 = h * w;
    let rows: u64 = aligner_rows(h, w, s.downsample);
    let mut v: Vec<Product> = Vec::new();
    v.push(Product { name: "patch_embed", m: n, n: s.dim, k: 3 * (s.patch * s.patch) });
    v.push(Product { name: "blk0.wqkv", m: n, n: 3 * s.dim, k: s.dim });
    v.push(Product { name: "blk0.wo", m: n, n: s.dim, k: s.dim });
    v.push(Product { name: "blk0.w1", m: n, n: 2 * s.ff, k: s.dim });
    v.push(Product { name: "blk0.w2", m: n, n: s.dim, k: s.ff });
    v.push(
        Product {
            name: "aligner.w1",
            m: rows,
            n: s.out_dim,
            k: s.dim * (s.downsample * s.downsample),
        },
    );
    v.push(Product { name: "aligner.w2", m: rows, n: s.out_dim, k: s.out_dim });
    v
}

// ------------------------------------------------------------ rearrangements

/// Columns `c0` to `c0 + dim` of rows `width` wide.
pub open spec fn columns(x: Seq<u16>, width: int, c0: int, dim: int) -> Seq<u16> {
    Seq::new(
        ((x.len() as int / width) * dim) as nat,
        |i: int| x[(i / dim) * width + c0 + i % dim],
    )
}

/// A place in a row of some rows lies among them.
proof fn lemma_in_rows(r: int, c: int, rows: int, width: int)
    requires
        0 <= r < rows,
        0 <= c < width,
    ensures
        0 <= r * width <= r * width + c < rows * width,
{
    assert(0 <= r * width) by (nonlinear_arith)
        requires
            0 <= r,
            0 < width,
    ;
    assert(r * width + c < rows * width) by (nonlinear_arith)
        requires
            0 <= r < rows,
            0 <= c < width,
    ;
}

/// The columns of a block out of every whole row.
pub fn column_block(x: &[u16], width: usize, c0: usize, dim: usize) -> (r: Vec<u16>)
    requires
        0 < dim,
        c0 + dim <= width,
    ensures
        r@ == columns(x@, width as int, c0 as int, dim as int),
{
    let len: usize = x.len();
    let rows: usize = len / width;
    let mut out: Vec<u16> = Vec::new();
    proof {
        vstd::arithmetic::div_mod::lemma_fundamental_div_mod(len as int, width as int);
        assert(width * rows == rows * width) by (nonlinear_arith);
        assert(0 * dim == 0);
    }
    let mut i: usize = 0;
    while i < rows
        invariant
            0 < dim,
            c0 + dim <= width,
            len == x@.len(),
            rows == len / width,
            rows * width <= len,
            i <= rows,
            out@.len() == i * dim,
            out@ =~= columns(x@, width as int, c0 as int, dim as int).take(i * dim),
        decreases rows - i,
    {
        let mut d: usize = 0;
        proof {
            assert(i * dim <= rows * dim) by (nonlinear_arith)
                requires
                    i <= rows,
                    0 < dim,
            ;
        }
        while d < dim
            invariant
                0 < dim,
                c0 + dim <= width,
                len == x@.len(),
                rows == len / width,
                rows * width <= len,
                i < rows,
                d <= dim,
                out@.len() == i * dim + d,
                out@ =~= columns(x@, width as int, c0 as int, dim as int).take(i * dim + d),
            decreases dim - d,
        {
            proof {
                lemma_in_rows(i as int, c0 + d, rows as int, width as int);
                lemma_in_rows(i as int, d as int, rows as int, dim as int);
                assert(i * dim == dim * i) by (nonlinear_arith);
                vstd::arithmetic::div_mod::lemma_fundamental_div_mod_converse(
                    i * dim + d,
                    dim as int,
                    i as int,
                    d as int,
                );
            }
            let ghost was = out@;
            out.push(x[i * width + (c0 + d)]);
            d += 1;
        }
        proof {
            assert((i + 1) * dim == i * dim + dim) by (nonlinear_arith);
        }
        i += 1;
    }
    assert(out@ =~= columns(x@, width as int, c0 as int, dim as int));
    out
}

/// The attention's input: the rows of queries, keys and values with the rotated
/// queries and keys in their place.
pub open spec fn rotated(qkv: Seq<u16>, q: Seq<u16>, k: Seq<u16>, dim: int) -> Seq<u16> {
    Seq::new(
        qkv.len(),
        |i: int|
            {
                let r = i / (3 * dim);
                let c = i % (3 * dim);
                if c < dim {
                    q[r * dim + c]
                } else if c < 2 * dim {
                    k[r * dim + (c - dim)]
                } else {
                    qkv[i]
                }
            },
    )
}

/// Puts the rotated queries and keys into the rows they came from, the values as
/// they are.
pub fn with_rotated(qkv: &[u16], q: &[u16], k: &[u16], dim: usize) -> (r: Vec<u16>)
    requires
        0 < dim,
        3 * dim <= usize::MAX,
        qkv@.len() == 3 * q@.len(),
        k@.len() == q@.len(),
        qkv@.len() as int % (3 * dim) == 0,
    ensures
        r@ == rotated(qkv@, q@, k@, dim as int),
{
    let width: usize = 3 * dim;
    let n: usize = qkv.len();
    let nq: usize = q.len();
    let mut out: Vec<u16> = Vec::new();
    let mut i: usize = 0;
    while i < n
        invariant
            0 < dim,
            width == 3 * dim,
            n == qkv@.len() == 3 * nq,
            nq == q@.len() == k@.len(),
            n as int % (3 * dim) == 0,
            i <= n,
            out@ =~= rotated(qkv@, q@, k@, dim as int).take(i as int),
        decreases n - i,
    {
        let r: usize = i / width;
        let c: usize = i % width;
        proof {
            let rows = n as int / (3 * dim);
            vstd::arithmetic::div_mod::lemma_fundamental_div_mod(n as int, 3 * dim);
            vstd::arithmetic::div_mod::lemma_fundamental_div_mod(i as int, 3 * dim);
            assert(3 * dim * rows == 3 * (rows * dim)) by (nonlinear_arith);
            assert(nq == rows * dim);
            assert(r < rows) by (nonlinear_arith)
                requires
                    i == (3 * dim) * r + c,
                    i < n,
                    n == (3 * dim) * rows,
                    0 <= c,
                    0 < dim,
            ;
            if c < dim {
                lemma_in_rows(r as int, c as int, rows, dim as int);
            } else if c < 2 * dim {
                lemma_in_rows(r as int, c - dim, rows, dim as int);
            }
        }
        if c < dim {
            out.push(q[r * dim + c]);
        } else if c - dim < dim {
            out.push(k[r * dim + (c - dim)]);
        } else {
            out.push(qkv[i]);
        }
        i += 1;
    }
    out
}

/// The attention reads back what was put in: the query columns are the rotated
/// queries, the key columns the rotated keys, and the value columns those of the
/// rows before.
pub proof fn law_the_attention_reads_its_rotation(
    qkv: Seq<u16>,
    q: Seq<u16>,
    k: Seq<u16>,
    dim: int,
    rows: int,
)
    requires
        0 < dim,
        0 <= rows,
        q.len() == rows * dim,
        k.len() == rows * dim,
        qkv.len() == rows * (3 * dim),
    ensures
        columns(rotated(qkv, q, k, dim), 3 * dim, 0, dim) == q,
        columns(rotated(qkv, q, k, dim), 3 * dim, dim, dim) == k,
        columns(rotated(qkv, q, k, dim), 3 * dim, 2 * dim, dim) == columns(
            qkv,
            3 * dim,
            2 * dim,
            dim,
        ),
{
    let x = rotated(qkv, q, k, dim);
    let width = 3 * dim;
    assert(rows * width == width * rows) by (nonlinear_arith);
    vstd::arithmetic::div_mod::lemma_fundamental_div_mod_converse(x.len() as int, width, rows, 0);
    assert forall|i: int| 0 <= i < rows * dim implies 0 <= #[trigger] (i / dim) < rows && i == (i
        / dim) * dim + i % dim && 0 <= i % dim < dim by {
        vstd::arithmetic::div_mod::lemma_fundamental_div_mod(i, dim);
        let r = i / dim;
        assert(r < rows && 0 <= r) by (nonlinear_arith)
            requires
                i == dim * r + i % dim,
                0 <= i < rows * dim,
                0 <= i % dim < dim,
        ;
        assert(dim * r == r * dim) by (nonlinear_arith);
    }
    assert forall|i: int, c0: int| 0 <= i < rows * dim && 0 <= c0 <= 2 * dim implies ({
        let at = #[trigger] ((i / dim) * width + c0 + i % dim);
        0 <= at < x.len() && at / width == i / dim && at % width == c0 + i % dim
    }) by {
        let r = i / dim;
        let c = c0 + i % dim;
        lemma_in_rows(r, c, rows, width);
        assert(r * width == width * r) by (nonlinear_arith);
        vstd::arithmetic::div_mod::lemma_fundamental_div_mod_converse(r * width + c, width, r, c);
    }
    let a = columns(x, width, 0, dim);
    assert forall|i: int| 0 <= i < rows * dim implies a[i] == q[i] by {
        let at = (i / dim) * width + 0 + i % dim;
        assert(at / width == i / dim && at % width == i % dim);
    }
    assert(a =~= q);
    let b = columns(x, width, dim, dim);
    assert forall|i: int| 0 <= i < rows * dim implies b[i] == k[i] by {
        let at = (i / dim) * width + dim + i % dim;
        assert(at / width == i / dim && at % width == dim + i % dim);
    }
    assert(b =~= k);
    let v = columns(x, width, 2 * dim, dim);
    let w = columns(qkv, width, 2 * dim, dim);
    assert forall|i: int| 0 <= i < rows * dim implies v[i] == w[i] by {
        let at = (i / dim) * width + 2 * dim + i % dim;
        assert(at / width == i / dim && at % width == 2 * dim + i % dim);
    }
    assert(v =~= w);
}

/// The pairs the gated activation multiplies: of each row of `2 * ff` values, value `j` with
/// value `ff + j`.
pub open spec fn pairs(x: Seq<u16>, ff: int) -> Seq<(u16, u16)> {
    Seq::new(
        ((x.len() as int / (2 * ff)) * ff) as nat,
        |i: int|
            (
                x[(i / ff) * (2 * ff) + i % ff],
                x[(i / ff) * (2 * ff) + ff + i % ff],
            ),
    )
}

/// The pairs the gated activation multiplies.
pub fn gate_pairs(x: &[u16], ff: usize) -> (r: Vec<(u16, u16)>)
    requires
        0 < ff,
        2 * ff <= usize::MAX,
    ensures
        r@ == pairs(x@, ff as int),
{
    let lo: Vec<u16> = column_block(x, 2 * ff, 0, ff);
    let hi: Vec<u16> = column_block(x, 2 * ff, ff, ff);
    let mut out: Vec<(u16, u16)> = Vec::new();
    let mut i: usize = 0;
    while i < lo.len()
        invariant
            lo@ == columns(x@, 2 * ff, 0, ff as int),
            hi@ == columns(x@, 2 * ff, ff as int, ff as int),
            i <= lo@.len(),
            out@ =~= pairs(x@, ff as int).take(i as int),
        decreases lo@.len() - i,
    {
        out.push((lo[i], hi[i]));
        i += 1;
    }
    out
}

// ------------------------------------------------------------ an image

/// What one image showed besides its taps.
#[derive(Clone, Copy, Debug, PartialEq, Eq, Structural)]
pub struct ImageChecks {
    /// Our patches are the set's, on the set's grid.
    pub patches: bool,
    /// Two plain runs and the tapped run are one.
    pub twice: bool,
    /// Launches of the plain and of the tapped run.
    pub plain_launches: usize,
    pub tapped_launches: usize,
}

/// Whether an image's runs hold: `launches` those an encode takes.
pub fn image_ok(c: &ImageChecks, launches: usize) -> (r: bool)
    ensures
        r == (c.patches && c.twice && c.plain_launches == launches && c.tapped_launches
            == launches),
{
    c.patches && c.twice && c.plain_launches == launches && c.tapped_launches == launches
}

/// The `k` rows of the largest distance, all of them where there are fewer: the
/// largest first, the earlier of two as large.
pub fn worst_rows(keys: &[i64], k: usize) -> (r: Vec<usize>)
    ensures
        is_top(
            r@,
            keys@,
            if k as int <= keys@.len() {
                k as int
            } else {
                keys@.len() as int
            },
        ),
{
    if k <= keys.len() {
        rank::top(keys, k)
    } else {
        rank::top(keys, keys.len())
    }
}

/// The place of a row in a grid `n_w` patches wide.
pub fn grid_place(row: usize, n_w: usize) -> (r: (usize, usize))
    requires
        0 < n_w,
    ensures
        r == ((row / n_w) as usize, (row % n_w) as usize),
{
    (row / n_w, row % n_w)
}

// ------------------------------------------------------------ what the rules compare

/// Two values are near where one is the other's neighbour of the same sign; a
/// value is tiny exactly where its exponent is zero.
pub proof fn law_near_is_a_neighbour(a: u16, x: u16)
    ensures
        near(a, a),
        a % 0x8000 != 0x7fff ==> near(a, (a + 1) as u16) && near((a + 1) as u16, a),
        a < 0x8000 && x >= 0x8000 ==> !near(a, x) && !near(x, a),
        x >= 2 && a <= x - 2 ==> !near(a, x) && !near(x, a),
        tiny(x) == (x % 0x8000 < 0x80),
{
    assert((x / 128) % 256 == 0 <==> x % 0x8000 < 0x80) by {
        assert((x % 0x8000) / 128 == (x / 128) % 256);
    }
}

/// The distance of two lists counts the places at which they differ, and every
/// value that only one of them has.
pub proof fn law_the_exact_distance_counts_places(got: Seq<u16>, want: Seq<u16>, more: Seq<u16>)
    requires
        got.len() == want.len(),
    ensures
        exact_distance(got, want) == Set::new(
            |i: int| 0 <= i < got.len() && got[i] != want[i],
        ).len(),
        exact_distance(got + more, want) == exact_distance(got, want) + more.len(),
        exact_distance(got, want + more) == exact_distance(got, want) + more.len(),
{
    let n = got.len() as int;
    let p = differs(got, want);
    crate::count::law_a_count_is_a_sets_size(n, p);
    assert(Set::new(|i: int| 0 <= i < n && p(i)) =~= Set::new(
        |i: int| 0 <= i < got.len() && got[i] != want[i],
    ));
    crate::count::lemma_count_shift(0, n, differs(got + more, want), 0, p);
    crate::count::lemma_count_shift(0, n, differs(got, want + more), 0, p);
}

/// The sweep's rows hold each input beside a zero.
pub proof fn law_a_sweep_row_is_beside_a_zero(xs: Seq<u16>, i: int)
    requires
        0 <= i < xs.len(),
    ensures
        beside_zeros(xs).len() == 2 * xs.len(),
        beside_zeros(xs)[2 * i] == xs[i],
        beside_zeros(xs)[2 * i + 1] == 0,
{
}

/// The rows the aligner leaves: one a square of patches, the last of a line cut
/// short, so their number is the least whose squares cover the grid.
pub proof fn law_the_aligners_rows_cover_the_grid(h: int, w: int, r: int)
    requires
        0 < h,
        0 < w,
        0 < r,
    ensures
        aligner_rows_of(h, w, 1) == h * w,
        groups(h, r) * r >= h,
        (groups(h, r) - 1) * r < h,
        aligner_rows_of(h, w, r) == groups(h, r) * groups(w, r),
        aligner_rows_of(r * h, r * w, r) == h * w,
{
    vstd::arithmetic::div_mod::lemma_fundamental_div_mod(h + r - 1, r);
    let g = groups(h, r);
    assert(g * r >= h && (g - 1) * r < h) by (nonlinear_arith)
        requires
            h + r - 1 == r * g + (h + r - 1) % r,
            0 <= (h + r - 1) % r < r,
            0 < r,
    ;
    vstd::arithmetic::div_mod::lemma_fundamental_div_mod_converse(r * h + r - 1, r, h, r - 1);
    vstd::arithmetic::div_mod::lemma_fundamental_div_mod_converse(r * w + r - 1, r, w, r - 1);
    assert(groups(h, 1) == h && groups(w, 1) == w);
}

/// Each product's inner width is the width of what it reads: the patch's pixels of
/// three colours, the model's width, the feed-forward's, and the squares the
/// aligner joins; and a product that another reads is as wide as that reads.
pub proof fn law_the_products_fit_each_other(s: Sizes, h: int, w: int)
    ensures
        ({
            let p = |i: int| product(s, h, w, i);
            &&& p(0).k == s.patch * s.patch * 3 && p(0).n == s.dim
            &&& p(1).k == p(0).n && p(1).n == 3 * p(1).k
            &&& p(2).k == s.dim && p(2).n == s.dim
            &&& p(3).k == s.dim && p(3).n == 2 * p(4).k && p(4).n == s.dim
            &&& p(5).k == s.dim * (s.downsample * s.downsample) && p(5).n == p(6).k
            &&& p(6).n == s.out_dim && p(5).n == s.out_dim
            &&& forall|i: int| 0 <= i < 5 ==> (#[trigger] product(s, h, w, i)).m == h * w
            &&& p(5).m == p(6).m && p(6).m == aligner_rows_of(h, w, s.downsample as int)
            &&& p(4).k == s.ff
        }),
{
}

/// A column block holds `dim` columns of each row, from column `c0` on.
pub proof fn law_a_column_block_is_its_columns(
    x: Seq<u16>,
    width: int,
    c0: int,
    dim: int,
    r: int,
    c: int,
)
    requires
        0 < dim <= width,
        0 <= r < x.len() as int / width,
        0 <= c < dim,
    ensures
        columns(x, width, c0, dim).len() == (x.len() as int / width) * dim,
        columns(x, width, c0, dim)[r * dim + c] == x[r * width + (c0 + c)],
{
    vstd::arithmetic::div_mod::lemma_fundamental_div_mod_converse(r * dim + c, dim, r, c);
    let n = x.len() as int / width;
    assert(0 <= r * dim && r * dim + c < n * dim) by (nonlinear_arith)
        requires
            0 <= r < n,
            0 <= c < dim,
    ;
}

/// The pairs of a gated row are its first half and its second, value by value.
pub proof fn law_a_pair_is_gate_and_up(x: Seq<u16>, ff: int, r: int, c: int)
    requires
        0 < ff,
        0 <= r < x.len() as int / (2 * ff),
        0 <= c < ff,
    ensures
        pairs(x, ff)[r * ff + c] == (x[r * (2 * ff) + c], x[r * (2 * ff) + (ff + c)]),
{
    vstd::arithmetic::div_mod::lemma_fundamental_div_mod_converse(r * ff + c, ff, r, c);
    let n = x.len() as int / (2 * ff);
    assert(0 <= r * ff && r * ff + c < n * ff) by (nonlinear_arith)
        requires
            0 <= r < n,
            0 <= c < ff,
    ;
}

/// What is counted of a sweep: a value is lost where the two differ, a tiny one
/// where its exponent is zero; a result is outside where it is neither the wanted
/// one, nor a neighbour, nor told close.
pub proof fn law_a_sweep_counts_what_is_lost(
    xs: Seq<u16>,
    ys: Seq<u16>,
    want: Seq<u16>,
    close: Seq<bool>,
    i: int,
)
    ensures
        lost_normal(xs, ys)(i) <==> xs[i] != ys[i] && xs[i] % 0x8000 >= 0x80,
        lost_tiny(xs, ys)(i) <==> xs[i] != ys[i] && xs[i] % 0x8000 < 0x80,
        tiny_at(xs)(i) <==> xs[i] % 0x8000 < 0x80,
        sweep_differs(xs, ys, want)(i) <==> xs[i] % 0x8000 >= 0x80 && ys[i] != want[i],
        sweep_outside(xs, ys, want, close)(i) ==> sweep_differs(xs, ys, want)(i) && !close[i],
        sweep_differs(xs, ys, want)(i) && !close[i] && !near(ys[i], want[i]) ==> sweep_outside(
            xs,
            ys,
            want,
            close,
        )(i),
        near(ys[i], want[i]) ==> !sweep_outside(xs, ys, want, close)(i) && !far(ys, want)(i),
        differs(xs, ys)(i) <==> xs[i] != ys[i],
        far(xs, ys)(i) <==> !near(xs[i], ys[i]),
{
    law_near_is_a_neighbour(xs[i], xs[i]);
    law_near_is_a_neighbour(ys[i], want[i]);
}

/// The first tap that is missing is one that the image did not take, and every one
/// before it was; the last block's tap is the model's last.
pub proof fn law_the_first_missing_tap_is_first(have: Seq<String>, n_layer: nat, at: int, i: int)
    requires
        0 <= at <= i < 18,
        n_layer > 0,
    ensures
        match first_missing(have, n_layer, at) {
            Some(f) => at <= f < 18 && !taken(have, rule_tap(f, n_layer)) && (i < f ==> taken(
                have,
                rule_tap(i, n_layer),
            )),
            None => taken(have, rule_tap(i, n_layer)),
        },
        rule_tap(13, n_layer) == "blk"@ + decimal((n_layer - 1) as nat),
    decreases 18 - at,
{
    if taken(have, rule_tap(at, n_layer)) && at + 1 < 18 {
        law_the_first_missing_tap_is_first(
            have,
            n_layer,
            at + 1,
            if i > at {
                i
            } else {
                at + 1
            },
        );
    } else {
        reveal_with_fuel(first_missing, 2);
    }
}

} // verus!
