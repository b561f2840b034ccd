//! Floating-point values by their bits: single precision as `u32`, half
//! precision as `u16`. What the gates ask of a value without computing with
//! it is a question about its sign, exponent and mantissa.
use crate::count::count_where;
use vstd::arithmetic::power2::lemma2_to64;
use vstd::arithmetic::power2::lemma_pow2_strictly_increases;
use vstd::arithmetic::power2::lemma_pow2_unfold;
use vstd::arithmetic::power2::pow2;
use vstd::prelude::*;

verus! {

/// The exponent field of a single.
pub open spec fn exponent(bits: u32) -> int {
    (bits as int / 0x80_0000) % 256
}

/// The mantissa field of a single.
pub open spec fn mantissa(bits: u32) -> int {
    bits as int % 0x80_0000
}

/// The sign bit of a single.
pub open spec fn is_negative(bits: u32) -> bool {
    bits >= 0x8000_0000
}

/// Neither infinite nor NaN.
pub open spec fn finite(bits: u32) -> bool {
    exponent(bits) != 255
}

/// Not a number.
pub open spec fn nan(bits: u32) -> bool {
    exponent(bits) == 255 && mantissa(bits) != 0
}

/// An integer ordered like the values: both zeros are 0, and the magnitude
/// below the sign bit counts the values from zero.
pub open spec fn order_key(bits: u32) -> int {
    if is_negative(bits) {
        0x8000_0000 - bits
    } else {
        bits as int
    }
}

/// Whether the value is finite.
pub fn is_finite(bits: u32) -> (r: bool)
    ensures
        r == finite(bits),
{
    (bits / 0x80_0000) % 256 != 255
}

/// Whether the value is not a number.
pub fn is_nan(bits: u32) -> (r: bool)
    ensures
        r == nan(bits),
{
    (bits / 0x80_0000) % 256 == 255 && bits % 0x80_0000 != 0
}

/// `a < b` of two singles: false where either is NaN, and the zeros equal.
pub open spec fn less(a: u32, b: u32) -> bool {
    !nan(a) && !nan(b) && order_key(a) < order_key(b)
}

/// The ordering integer of a single.
fn key(bits: u32) -> (r: i64)
    ensures
        r == order_key(bits),
{
    if bits >= 0x8000_0000 {
        0x8000_0000 - bits as i64
    } else {
        bits as i64
    }
}

/// Whether `a < b`.
pub fn is_less(a: u32, b: u32) -> (r: bool)
    ensures
        r == less(a, b),
{
    !is_nan(a) && !is_nan(b) && key(a) < key(b)
}

/// The position of the first value that is not finite, from `at` on.
pub open spec fn first_nonfinite(v: Seq<u32>, at: int) -> Option<int>
    decreases v.len() - at,
{
    if at < 0 || at >= v.len() {
        None
    } else if !finite(v[at]) {
        Some(at)
    } else {
        first_nonfinite(v, at + 1)
    }
}

/// The position of the first value that is not finite.
pub fn find_nonfinite(v: &[u32]) -> (r: Option<usize>)
    ensures
        match r {
            Some(i) => first_nonfinite(v@, 0) == Some(i as int) && i < v@.len(),
            None => first_nonfinite(v@, 0) is None,
        },
{
    let mut i: usize = 0;
    while i < v.len()
        invariant
            i <= v@.len(),
            first_nonfinite(v@, 0) == first_nonfinite(v@, i as int),
        decreases v@.len() - i,
    {
        if !is_finite(v[i]) {
            return Some(i);
        }
        i += 1;
    }
    None
}

/// A list without such a position is finite throughout.
pub proof fn lemma_all_finite(v: Seq<u32>, at: int)
    requires
        0 <= at,
        first_nonfinite(v, at) is None,
    ensures
        forall|i: int| at <= i < v.len() ==> finite(#[trigger] v[i]),
    decreases v.len() - at,
{
    if at < v.len() {
        lemma_all_finite(v, at + 1);
    }
}

// ------------------------------------------------------------ comparisons

/// Same length and the same bits at every index: the bit-identity contract
/// that fusion, rerun and replay checks assert. Not value equality: that calls
/// the zeros equal and two NaNs unequal, and both are differences a fusion
/// defect can produce.
pub fn bits_equal(a: &[u32], b: &[u32]) -> (r: bool)
    ensures
        r == (a@ == b@),
{
    if a.len() != b.len() {
        return false;
    }
    let mut i: usize = 0;
    while i < a.len()
        invariant
            i <= a@.len(),
            a@.len() == b@.len(),
            forall|k: int| 0 <= k < i ==> a@[k] == b@[k],
        decreases a@.len() - i,
    {
        if a[i] != b[i] {
            assert(a@[i as int] != b@[i as int]);
            return false;
        }
        i += 1;
    }
    assert(a@ =~= b@);
    true
}

/// The indices at which two lists hold the same bits.
pub open spec fn same_at(a: Seq<u32>, b: Seq<u32>) -> spec_fn(int) -> bool {
    |i: int| a[i] == b[i]
}

/// The shorter length of two lists.
pub open spec fn shorter(a: Seq<u32>, b: Seq<u32>) -> int {
    if a.len() <= b.len() {
        a.len() as int
    } else {
        b.len() as int
    }
}

/// Values of `a` and `b` with the same bits, index by index over the shorter
/// of the two.
pub fn same_bits(a: &[u32], b: &[u32]) -> (r: usize)
    ensures
        r == count_where(shorter(a@, b@), same_at(a@, b@)),
{
    let mut n: usize = 0;
    let mut i: usize = 0;
    while i < a.len() && i < b.len()
        invariant
            i <= a@.len(),
            i <= b@.len(),
            n <= i,
            n == count_where(i as int, same_at(a@, b@)),
        decreases a@.len() - i,
    {
        if a[i] == b[i] {
            n += 1;
        }
        i += 1;
    }
    n
}

/// Ulps between two singles, through the ordering integers.
pub open spec fn distance(a: u32, b: u32) -> int {
    if order_key(a) >= order_key(b) {
        order_key(a) - order_key(b)
    } else {
        order_key(b) - order_key(a)
    }
}

/// Ulps between two finite singles, through integers ordered like the values
/// they encode (the two zeros the same point).
pub fn ulps(a: u32, b: u32) -> (r: u32)
    ensures
        r == distance(a, b),
{
    let (x, y): (i64, i64) = (key(a), key(b));
    if x >= y {
        (x - y) as u32
    } else {
        (y - x) as u32
    }
}

/// The largest distance over the first `n` indices, 0 where there is none.
pub open spec fn max_distance(a: Seq<u32>, b: Seq<u32>, n: int) -> int
    decreases n,
{
    if n <= 0 {
        0
    } else {
        let before = max_distance(a, b, n - 1);
        let here = distance(a[n - 1], b[n - 1]);
        if here > before {
            here
        } else {
            before
        }
    }
}

/// The largest distance in ulps between `a` and `b`, index by index; 0 when
/// either is empty.
pub fn max_ulps(a: &[u32], b: &[u32]) -> (r: u32)
    ensures
        r == max_distance(a@, b@, shorter(a@, b@)),
{
    let mut m: u32 = 0;
    let mut i: usize = 0;
    while i < a.len() && i < b.len()
        invariant
            i <= a@.len(),
            i <= b@.len(),
            m == max_distance(a@, b@, i as int),
        decreases a@.len() - i,
    {
        let d: u32 = ulps(a[i], b[i]);
        if d > m {
            m = d;
        }
        i += 1;
    }
    m
}

/// The distance in ulps is 0 between equal bits and between the two zeros,
/// and it is the same both ways.
pub proof fn law_distance(a: u32, b: u32)
    ensures
        distance(a, a) == 0,
        distance(0, 0x8000_0000) == 0,
        distance(a, b) == distance(b, a),
        distance(a, b) == 0 <==> a == b || (a % 0x8000_0000 == 0 && b % 0x8000_0000 == 0),
{
}

/// `view` is not the base's memory at an offset.
#[derive(Clone, Copy, Debug, PartialEq, Eq, Structural)]
pub struct NotFlat;

/// Proves the dump's VIEW convention for one view read as a plain file: `view`
/// must equal `base` from `off`, flat memory from the view's base pointer, not
/// the materialized gather a consumer of the logical tensor wants.
pub fn view_flat(view: &[u32], base: &[u32], off: usize) -> (r: Result<(), NotFlat>)
    ensures
        r is Ok <==> off + view@.len() <= base@.len() && base@.subrange(
            off as int,
            off + view@.len(),
        ) == view@,
{
    let n: usize = base.len();
    if off > n || view.len() > n - off {
        return Err(NotFlat);
    }
    let mut i: usize = 0;
    while i < view.len()
        invariant
            i <= view@.len(),
            n == base@.len(),
            off + view@.len() <= n,
            forall|k: int| 0 <= k < i ==> view@[k] == base@[off + k],
        decreases view@.len() - i,
    {
        if view[i] != base[off + i] {
            assert(base@.subrange(off as int, off + view@.len())[i as int] != view@[i as int]);
            return Err(NotFlat);
        }
        i += 1;
    }
    assert(base@.subrange(off as int, off + view@.len()) =~= view@);
    Ok(())
}

// ------------------------------------------------------------ half precision

/// The magnitude bits of the single that a half's magnitude widens to: an
/// exact conversion, the subnormal halves normal singles.
pub open spec fn widened_magnitude(x: int) -> int {
    let e = x / 1024;
    let m = x % 1024;
    if e == 31 {
        255 * 0x80_0000 + m * 8192
    } else if e > 0 {
        (e + 112) * 0x80_0000 + m * 8192
    } else if m >= 512 {
        112 * 0x80_0000 + (m - 512) * 16384
    } else if m >= 256 {
        111 * 0x80_0000 + (m - 256) * 32768
    } else if m >= 128 {
        110 * 0x80_0000 + (m - 128) * 65536
    } else if m >= 64 {
        109 * 0x80_0000 + (m - 64) * 131072
    } else if m >= 32 {
        108 * 0x80_0000 + (m - 32) * 262144
    } else if m >= 16 {
        107 * 0x80_0000 + (m - 16) * 524288
    } else if m >= 8 {
        106 * 0x80_0000 + (m - 8) * 1048576
    } else if m >= 4 {
        105 * 0x80_0000 + (m - 4) * 2097152
    } else if m >= 2 {
        104 * 0x80_0000 + (m - 2) * 4194304
    } else if m == 1 {
        103int * 0x80_0000
    } else {
        0
    }
}

/// The single that a half widens to, exactly.
pub open spec fn widened(h: u16) -> int {
    (h as int / 0x8000) * 0x8000_0000 + widened_magnitude(h as int % 0x8000)
}

/// The magnitude bits of a single that some half widens to: their exponent is
/// one a half reaches, and the mantissa bits that a half has not are zero.
spec fn has_half(x: int) -> bool {
    let e = x / 0x80_0000;
    let m = x % 0x80_0000;
    if e == 255 || 113 <= e <= 142 {
        m % 8192 == 0
    } else if e == 112 {
        m % 16384 == 0
    } else if e == 111 {
        m % 32768 == 0
    } else if e == 110 {
        m % 65536 == 0
    } else if e == 109 {
        m % 131072 == 0
    } else if e == 108 {
        m % 262144 == 0
    } else if e == 107 {
        m % 524288 == 0
    } else if e == 106 {
        m % 1048576 == 0
    } else if e == 105 {
        m % 2097152 == 0
    } else if e == 104 {
        m % 4194304 == 0
    } else if e == 103 {
        m == 0
    } else {
        x == 0
    }
}

proof fn lemma_has_half(h: int)
    requires
        0 <= h < 0x8000,
    ensures
        has_half(widened_magnitude(h)),
{
    let e = h / 1024;
    let m = h % 1024;
    let x = widened_magnitude(h);
    if e == 31 {
        lemma_fields(x, 255, m * 8192);
    } else if e > 0 {
        lemma_fields(x, e + 112, m * 8192);
    } else if m >= 512 {
        lemma_fields(x, 112, (m - 512) * 16384);
    } else if m >= 256 {
        lemma_fields(x, 111, (m - 256) * 32768);
    } else if m >= 128 {
        lemma_fields(x, 110, (m - 128) * 65536);
    } else if m >= 64 {
        lemma_fields(x, 109, (m - 64) * 131072);
    } else if m >= 32 {
        lemma_fields(x, 108, (m - 32) * 262144);
    } else if m >= 16 {
        lemma_fields(x, 107, (m - 16) * 524288);
    } else if m >= 8 {
        lemma_fields(x, 106, (m - 8) * 1048576);
    } else if m >= 4 {
        lemma_fields(x, 105, (m - 4) * 2097152);
    } else if m >= 2 {
        lemma_fields(x, 104, (m - 2) * 4194304);
    } else if m == 1 {
        lemma_fields(x, 103, 0);
    }
}

proof fn lemma_fields(x: int, e: int, m: int)
    requires
        x == e * 0x80_0000 + m,
        0 <= m < 0x80_0000,
        0 <= e,
    ensures
        x / 0x80_0000 == e,
        x % 0x80_0000 == m,
{
}

/// The half that widens to the magnitude bits `x`, if one does.
fn narrow_magnitude(x: u32) -> (r: Option<u16>)
    requires
        x < 0x8000_0000,
    ensures
        match r {
            Some(h) => h < 0x8000 && widened_magnitude(h as int) == x,
            None => !has_half(x as int),
        },
{
    let e: u32 = x / 0x80_0000;
    let m: u32 = x % 0x80_0000;
    if e == 255 {
        if m % 8192 == 0 {
            return Some(half_of(31, m / 8192));
        }
    } else if 113 <= e && e <= 142 {
        if m % 8192 == 0 {
            return Some(half_of(e - 112, m / 8192));
        }
    } else if e == 112 {
        if m % 16384 == 0 {
            return Some(half_of(0, 512 + m / 16384));
        }
    } else if e == 111 {
        if m % 32768 == 0 {
            return Some(half_of(0, 256 + m / 32768));
        }
    } else if e == 110 {
        if m % 65536 == 0 {
            return Some(half_of(0, 128 + m / 65536));
        }
    } else if e == 109 {
        if m % 131072 == 0 {
            return Some(half_of(0, 64 + m / 131072));
        }
    } else if e == 108 {
        if m % 262144 == 0 {
            return Some(half_of(0, 32 + m / 262144));
        }
    } else if e == 107 {
        if m % 524288 == 0 {
            return Some(half_of(0, 16 + m / 524288));
        }
    } else if e == 106 {
        if m % 1048576 == 0 {
            return Some(half_of(0, 8 + m / 1048576));
        }
    } else if e == 105 {
        if m % 2097152 == 0 {
            return Some(half_of(0, 4 + m / 2097152));
        }
    } else if e == 104 {
        if m % 4194304 == 0 {
            return Some(half_of(0, 2 + m / 4194304));
        }
    } else if e == 103 {
        if m == 0 {
            return Some(half_of(0, 1));
        }
    } else if x == 0 {
        return Some(half_of(0, 0));
    }
    None
}

/// The magnitude bits of a half, from its exponent and mantissa fields.
fn half_of(e: u32, m: u32) -> (r: u16)
    requires
        e < 32,
        m < 1024,
    ensures
        r < 0x8000,
        r as int / 1024 == e,
        r as int % 1024 == m,
{
    (e * 1024 + m) as u16
}

/// The half that widens to the single `bits`, if one does.
pub fn narrowed(bits: u32) -> (r: Option<u16>)
    ensures
        match r {
            Some(h) => widened(h) == bits,
            None => forall|h: u16| #[trigger] widened(h) != bits,
        },
{
    let sign: u32 = bits / 0x8000_0000;
    match narrow_magnitude(bits % 0x8000_0000) {
        Some(h) => {
            let full: u16 = (sign * 0x8000) as u16 + h;
            assert(full as int % 0x8000 == h);
            Some(full)
        },
        None => {
            proof {
                assert forall|h: u16| #[trigger] widened(h) != bits by {
                    let low = h as int % 0x8000;
                    lemma_widened_range(low);
                    lemma_has_half(low);
                }
            }
            None
        },
    }
}

proof fn lemma_widened_range(x: int)
    requires
        0 <= x < 0x8000,
    ensures
        0 <= widened_magnitude(x) < 0x8000_0000,
{
}

/// Widening loses nothing: different halves widen to different singles.
pub proof fn law_widening_is_injective(a: u16, b: u16)
    requires
        widened(a) == widened(b),
    ensures
        a == b,
{
    lemma_widened_range(a as int % 0x8000);
    lemma_widened_range(b as int % 0x8000);
    lemma_magnitude_injective(a as int % 0x8000, b as int % 0x8000);
}

proof fn lemma_magnitude_injective(a: int, b: int)
    requires
        0 <= a < 0x8000,
        0 <= b < 0x8000,
        widened_magnitude(a) == widened_magnitude(b),
    ensures
        a == b,
{
}

// ------------------------------------------------------------ whole numbers

/// The integer a single is, if it is one.
pub open spec fn whole(bits: u32) -> Option<int> {
    let e = exponent(bits);
    let full = 0x80_0000 + mantissa(bits);
    let magnitude = if bits as int % 0x8000_0000 == 0 {
        Some(0)
    } else if e == 255 || e < 127 {
        None
    } else if e < 150 {
        let q = pow2((150 - e) as nat) as int;
        if full % q == 0 {
            Some(full / q)
        } else {
            None
        }
    } else {
        Some(full * pow2((e - 150) as nat))
    };
    match magnitude {
        None => None,
        Some(v) => Some(
            if is_negative(bits) {
                -v
            } else {
                v
            },
        ),
    }
}

/// A power of two.
fn power(n: u32) -> (r: u64)
    requires
        n < 32,
    ensures
        r == pow2(n as nat),
{
    let mut r: u64 = 1;
    let mut i: u32 = 0;
    proof {
        lemma2_to64();
    }
    while i < n
        invariant
            i <= n < 32,
            r == pow2(i as nat),
        decreases n - i,
    {
        proof {
            lemma_pow2_unfold((i + 1) as nat);
            lemma2_to64();
            lemma_pow2_strictly_increases((i + 1) as nat, 32);
        }
        r = r * 2;
        i += 1;
    }
    r
}

/// The id a single holds: its value where that is an integer in `0..n`.
pub fn id_below(bits: u32, n: u32) -> (r: Option<u32>)
    ensures
        match r {
            Some(v) => whole(bits) == Some(v as int) && v < n,
            None => whole(bits) is None || whole(bits)->0 < 0 || whole(bits)->0 >= n,
        },
{
    if bits % 0x8000_0000 == 0 {
        return if n > 0 {
            Some(0)
        } else {
            None
        };
    }
    let e: u32 = (bits / 0x80_0000) % 256;
    let full: u64 = 0x80_0000 + (bits % 0x80_0000) as u64;
    if e == 255 || e < 127 {
        return None;
    }
    if e < 150 {
        let q: u64 = power(150 - e);
        proof {
            lemma2_to64();
            if e < 149 {
                lemma_pow2_strictly_increases(1, (150 - e) as nat);
            }
            if 150 - e < 23 {
                lemma_pow2_strictly_increases((150 - e) as nat, 23);
            }
            assert(0 < q <= 0x80_0000);
        }
        if full % q != 0 {
            return None;
        }
        let v: u64 = full / q;
        proof {
            vstd::arithmetic::div_mod::lemma_div_non_zero(full as int, q as int);
            assert(v <= full) by (nonlinear_arith)
                requires
                    v == full / q,
                    q > 0,
            ;
        }
        if bits >= 0x8000_0000 || v >= n as u64 {
            return None;
        }
        return Some(v as u32);
    }
    if bits >= 0x8000_0000 {
        proof {
            let p = pow2((e - 150) as nat) as int;
            vstd::arithmetic::power2::lemma_pow2_pos((e - 150) as nat);
            assert(full * p > 0) by (nonlinear_arith)
                requires
                    full > 0,
                    p > 0,
            ;
        }
        return None;
    }
    if e >= 159 {
        proof {
            let p = pow2((e - 150) as nat) as int;
            lemma2_to64();
            if e > 159 {
                lemma_pow2_strictly_increases(9, (e - 150) as nat);
            }
            assert(full * p >= 0x1_0000_0000) by (nonlinear_arith)
                requires
                    full >= 0x80_0000,
                    p >= 512,
            ;
        }
        return None;
    }
    let p: u64 = power(e - 150);
    proof {
        lemma2_to64();
        if e < 158 {
            lemma_pow2_strictly_increases((e - 150) as nat, 8);
        }
        assert(full * p <= 0x1_0000_0000) by (nonlinear_arith)
            requires
                full <= 0x100_0000,
                p <= 256,
        ;
    }
    let v: u64 = full * p;
    if v >= n as u64 {
        return None;
    }
    Some(v as u32)
}

// ------------------------------------------------------------ doubles

/// A double that is not a number.
pub open spec fn not_a_number(x: u64) -> bool {
    x % 0x8000_0000_0000_0000 > 0x7ff0_0000_0000_0000
}

/// An integer ordered like the doubles, both zeros 0.
pub open spec fn double_key(x: u64) -> int {
    if x >= 0x8000_0000_0000_0000 {
        0x8000_0000_0000_0000 - x
    } else {
        x as int
    }
}

/// `a <= b` of two doubles: false where either is not a number.
pub open spec fn at_most(a: u64, b: u64) -> bool {
    !not_a_number(a) && !not_a_number(b) && double_key(a) <= double_key(b)
}

/// Whether `a <= b`.
pub fn is_at_most(a: u64, b: u64) -> (r: bool)
    ensures
        r == at_most(a, b),
{
    let nan: bool = a % 0x8000_0000_0000_0000 > 0x7ff0_0000_0000_0000 || b % 0x8000_0000_0000_0000
        > 0x7ff0_0000_0000_0000;
    let ka: i128 = if a >= 0x8000_0000_0000_0000 {
        0x8000_0000_0000_0000 - a as i128
    } else {
        a as i128
    };
    let kb: i128 = if b >= 0x8000_0000_0000_0000 {
        0x8000_0000_0000_0000 - b as i128
    } else {
        b as i128
    };
    !nan && ka <= kb
}

// ------------------------------------------------------------ the values

/// The magnitude of a finite single, in units of the least one above zero: the
/// mantissa with its hidden bit, shifted by the exponent.
pub open spec fn magnitude_units(bits: u32) -> int {
    let e = (bits / 0x80_0000) as int % 256;
    let m = (bits % 0x80_0000) as int;
    if e == 0 {
        m
    } else {
        (m + 0x80_0000) * pow2((e - 1) as nat)
    }
}

/// The value of a finite single in those units.
pub open spec fn value_units(bits: u32) -> int {
    if bits / 0x8000_0000 == 1 {
        -magnitude_units(bits)
    } else {
        magnitude_units(bits)
    }
}

/// Finite singles compare as their values do: one is less exactly where its value
/// is, the two zeros are equal, an infinity lies past every finite value, and a
/// NaN is neither less nor greater than anything.
pub proof fn law_singles_order_as_their_values(a: u32, b: u32)
    ensures
        finite(a) && finite(b) ==> less(a, b) == (value_units(a) < value_units(b)),
        finite(a) ==> less(a, 0x7f80_0000) && less(0xff80_0000, a),
        a % 0x8000_0000 > 0x7f80_0000 ==> nan(a) && !less(a, b) && !less(b, a),
        finite(a) == (a % 0x8000_0000 < 0x7f80_0000),
        a % 0x8000_0000 <= 0x7f80_0000 ==> !nan(a),
{
    let (x, y) = ((a % 0x8000_0000) as u32, (b % 0x8000_0000) as u32);
    lemma_fields_of(a);
    lemma_fields_of(b);
    if finite(a) && finite(b) {
        lemma_units_grow(x, y);
        lemma_units_grow(y, x);
        lemma_units_zero(x);
        lemma_units_zero(y);
    }
}

proof fn lemma_fields_of(a: u32)
    ensures
        ({
            let x = (a % 0x8000_0000) as u32;
            &&& exponent(a) == x as int / 0x80_0000
            &&& mantissa(a) == x as int % 0x80_0000
            &&& magnitude_units(a) == magnitude_units(x)
            &&& exponent(x) == exponent(a)
        }),
{
}

proof fn lemma_units_zero(x: u32)
    requires
        x < 0x7f80_0000,
    ensures
        magnitude_units(x) >= 0,
        (magnitude_units(x) == 0) == (x == 0),
{
    let e = x as int / 0x80_0000;
    let m = x as int % 0x80_0000;
    assert((x / 0x80_0000) as int % 256 == e);
    if e > 0 {
        let p = pow2((e - 1) as nat) as int;
        vstd::arithmetic::power2::lemma_pow2_pos((e - 1) as nat);
        assert((m + 0x80_0000) * p > 0) by (nonlinear_arith)
            requires
                m >= 0,
                p > 0,
        ;
    }
}

/// A larger bit pattern is a larger magnitude.
proof fn lemma_units_grow(x: u32, y: u32)
    requires
        x < 0x7f80_0000,
        y < 0x7f80_0000,
    ensures
        x < y ==> magnitude_units(x) < magnitude_units(y),
{
    let (e, f) = (x as int / 0x80_0000, y as int / 0x80_0000);
    let (m, n) = (x as int % 0x80_0000, y as int % 0x80_0000);
    assert((x / 0x80_0000) as int % 256 == e);
    assert((y / 0x80_0000) as int % 256 == f);
    if x < y {
        assert(e < f || (e == f && m < n));
        if e == f {
            if e > 0 {
                let p = pow2((e - 1) as nat) as int;
                vstd::arithmetic::power2::lemma_pow2_pos((e - 1) as nat);
                assert((m + 0x80_0000) * p < (n + 0x80_0000) * p) by (nonlinear_arith)
                    requires
                        m < n,
                        p > 0,
                ;
            }
        } else {
            let q = pow2((f - 1) as nat) as int;
            vstd::arithmetic::power2::lemma_pow2_pos((f - 1) as nat);
            assert((n + 0x80_0000) * q >= 0x80_0000 * q) by (nonlinear_arith)
                requires
                    n >= 0,
                    q > 0,
            ;
            if e == 0 {
                assert(0x80_0000 * q >= 0x80_0000) by (nonlinear_arith)
                    requires
                        q >= 1,
                ;
            } else {
                let p = pow2((e - 1) as nat) as int;
                vstd::arithmetic::power2::lemma_pow2_pos((e - 1) as nat);
                lemma_pow2_unfold(e as nat);
                if e < f - 1 {
                    lemma_pow2_strictly_increases(e as nat, (f - 1) as nat);
                }
                assert(q >= 2 * p);
                assert((m + 0x80_0000) * p < 0x80_0000 * q) by (nonlinear_arith)
                    requires
                        0 <= m < 0x80_0000,
                        p > 0,
                        q >= 2 * p,
                ;
            }
        }
    }
}

/// The distance of two finite singles of one sign counts the steps between them:
/// each next bit pattern is one further, and across the signs the steps to zero
/// add up.
pub proof fn law_distance_counts_the_steps(a: u32, k: u32, b: u32)
    requires
        a < 0x8000_0000,
        a + k < 0x8000_0000,
        b < 0x8000_0000,
    ensures
        distance(a, (a + k) as u32) == k,
        distance((a + 0x8000_0000) as u32, (a + k + 0x8000_0000) as u32) == k,
        distance(a, (b + 0x8000_0000) as u32) == a + b,
{
}

/// The largest distance bounds every one and is one of them.
pub proof fn law_the_largest_distance(a: Seq<u32>, b: Seq<u32>, n: int, i: int)
    requires
        0 <= i < n,
        n <= a.len(),
        n <= b.len(),
    ensures
        distance(a[i], b[i]) <= max_distance(a, b, n),
        exists|k: int| 0 <= k < n && #[trigger] distance(a[k], b[k]) == max_distance(a, b, n),
    decreases n,
{
    if n == 1 {
        assert(max_distance(a, b, 1) == distance(a[0], b[0])) by {
            reveal_with_fuel(max_distance, 2);
        }
        assert(distance(a[0], b[0]) == max_distance(a, b, n));
    } else {
        let j = if i < n - 1 {
            i
        } else {
            0
        };
        law_the_largest_distance(a, b, n - 1, j);
        let k = choose|k: int|
            0 <= k < n - 1 && #[trigger] distance(a[k], b[k]) == max_distance(a, b, n - 1);
        if distance(a[n - 1], b[n - 1]) > max_distance(a, b, n - 1) {
            assert(distance(a[n - 1], b[n - 1]) == max_distance(a, b, n));
        } else {
            assert(distance(a[k], b[k]) == max_distance(a, b, n));
        }
    }
}

/// Doubles compare by sign and magnitude: a larger pattern is a larger magnitude,
/// the zeros are equal, and a NaN is at most nothing.
pub proof fn law_doubles_order_by_magnitude(a: u64, b: u64)
    requires
        a < 0x7ff0_0000_0000_0000,
        b < 0x7ff0_0000_0000_0000,
    ensures
        at_most(a, b) == (a <= b),
        at_most((a + 0x8000_0000_0000_0000) as u64, (b + 0x8000_0000_0000_0000) as u64) == (b <= a),
        at_most((a + 0x8000_0000_0000_0000) as u64, b),
        at_most(a, (b + 0x8000_0000_0000_0000) as u64) == (a == 0 && b == 0),
        at_most(a, 0x7ff0_0000_0000_0000),
        !at_most(0x7ff0_0000_0000_0000, a),
        !at_most(0x7ff8_0000_0000_0000, a) && !at_most(a, 0x7ff8_0000_0000_0000),
        !at_most(0x7ff0_0000_0000_0001, a),
{
}

// ------------------------------------------------------------ halves by value

/// The magnitude of a finite half, in units of its least one above zero.
pub open spec fn half_units(h: u16) -> int {
    let e = (h / 1024) as int % 32;
    let m = (h % 1024) as int;
    if e == 0 {
        m
    } else {
        (m + 1024) * pow2((e - 1) as nat)
    }
}

/// Widening a half keeps its value: the sign, and the magnitude, a half's unit
/// being that of a single 125 doublings on. An infinity stays one, and a NaN too.
pub proof fn law_widening_keeps_the_value(h: u16)
    ensures
        0 <= widened(h) <= u32::MAX,
        widened(h) / 0x8000_0000 == h / 0x8000,
        (h / 1024) % 32 != 31 ==> finite(widened(h) as u32) && magnitude_units(widened(h) as u32)
            == half_units(h) * pow2(125),
        (h / 1024) % 32 == 31 ==> !finite(widened(h) as u32) && nan(widened(h) as u32) == (h % 1024
            != 0),
{
    let x = h as int % 0x8000;
    let e = x / 1024;
    let m = x % 1024;
    assert((h / 1024) as int % 32 == e);
    assert((h % 1024) as int == m);
    lemma_widened_range(x);
    let w = widened(h) as u32;
    lemma_fields_of(w);
    assert(w as int % 0x8000_0000 == widened_magnitude(x));
    let y = widened_magnitude(x);
    if e == 31 {
        lemma_fields(y, 255, m * 8192);
    } else if e > 0 {
        lemma_fields(y, e + 112, m * 8192);
        lemma2_to64();
        lemma_two_shifts(m + 1024, 13, (e + 111) as nat, (e - 1) as nat, 125);
    } else if m >= 512 {
        lemma_fields(y, 112, (m - 512) * 16384);
        lemma2_to64();
        lemma_two_shifts(m, 14, 111, 0, 125);
    } else if m >= 256 {
        lemma_fields(y, 111, (m - 256) * 32768);
        lemma2_to64();
        lemma_two_shifts(m, 15, 110, 0, 125);
    } else if m >= 128 {
        lemma_fields(y, 110, (m - 128) * 65536);
        lemma2_to64();
        lemma_two_shifts(m, 16, 109, 0, 125);
    } else if m >= 64 {
        lemma_fields(y, 109, (m - 64) * 131072);
        lemma2_to64();
        lemma_two_shifts(m, 17, 108, 0, 125);
    } else if m >= 32 {
        lemma_fields(y, 108, (m - 32) * 262144);
        lemma2_to64();
        lemma_two_shifts(m, 18, 107, 0, 125);
    } else if m >= 16 {
        lemma_fields(y, 107, (m - 16) * 524288);
        lemma2_to64();
        lemma_two_shifts(m, 19, 106, 0, 125);
    } else if m >= 8 {
        lemma_fields(y, 106, (m - 8) * 1048576);
        lemma2_to64();
        lemma_two_shifts(m, 20, 105, 0, 125);
    } else if m >= 4 {
        lemma_fields(y, 105, (m - 4) * 2097152);
        lemma2_to64();
        lemma_two_shifts(m, 21, 104, 0, 125);
    } else if m >= 2 {
        lemma_fields(y, 104, (m - 2) * 4194304);
        lemma2_to64();
        lemma_two_shifts(m, 22, 103, 0, 125);
    } else if m == 1 {
        lemma_fields(y, 103, 0);
        lemma2_to64();
        lemma_two_shifts(m, 23, 102, 0, 125);
    }
}

/// Two ways to shift a number by as many places are one.
proof fn lemma_two_shifts(n: int, a: nat, b: nat, c: nat, d: nat)
    requires
        a + b == c + d,
    ensures
        (n * pow2(a)) * pow2(b) == (n * pow2(c)) * pow2(d),
{
    vstd::arithmetic::power2::lemma_pow2_adds(a, b);
    vstd::arithmetic::power2::lemma_pow2_adds(c, d);
    let (p, q, r, s) = (pow2(a) as int, pow2(b) as int, pow2(c) as int, pow2(d) as int);
    assert((n * p) * q == (n * r) * s) by (nonlinear_arith)
        requires
            p * q == r * s,
    ;
}

/// A single is the whole number it stands for: where it is given, the value is
/// that number of ones (149 doublings of the least unit), and a finite single
/// that is a number of ones is never refused.
pub proof fn law_a_whole_number_is_the_value(bits: u32, n: int)
    ensures
        whole(bits) == Some(n) ==> finite(bits) && value_units(bits) == n * pow2(149),
        finite(bits) && value_units(bits) == n * pow2(149) ==> whole(bits) == Some(n),
{
    lemma_fields_of(bits);
    let x = (bits % 0x8000_0000) as u32;
    let e = exponent(bits);
    let m = mantissa(bits);
    let full = 0x80_0000 + m;
    let one = pow2(149) as int;
    vstd::arithmetic::power2::lemma_pow2_pos(149);
    if finite(bits) {
        lemma_units_zero(x);
        let u = magnitude_units(bits);
        let k = if is_negative(bits) {
            -n
        } else {
            n
        };
        assert(-(n * one) == (-n) * one) by (nonlinear_arith);
        assert((value_units(bits) == n * one) == (u == k * one));
        if x == 0 {
            assert((0 == k * one) == (k == 0)) by (nonlinear_arith)
                requires
                    one > 0,
            ;
        } else {
            assert(u == (if e == 0 {
                m
            } else {
                full * pow2((e - 1) as nat)
            }));
            if e < 127 {
                assert(u < one) by {
                    if e == 0 {
                        lemma2_to64();
                        lemma_pow2_strictly_increases(23, 149);
                    } else {
                        lemma_pow2_strictly_increases((e - 1) as nat, 126);
                        vstd::arithmetic::power2::lemma_pow2_pos((e - 1) as nat);
                        vstd::arithmetic::power2::lemma_pow2_adds(23, 126);
                        lemma2_to64();
                        lemma_pow2_unfold(126);
                        let (p, q) = (pow2((e - 1) as nat) as int, pow2(126) as int);
                        if e < 126 {
                            lemma_pow2_strictly_increases((e - 1) as nat, 125);
                        }
                        assert(full * p < 0x80_0000 * q) by (nonlinear_arith)
                            requires
                                0 < full < 0x100_0000,
                                2 * p <= q,
                                p > 0,
                        ;
                    }
                }
                assert(u != k * one) by (nonlinear_arith)
                    requires
                        0 < u < one,
                ;
            } else if e < 150 {
                let (p, q) = (pow2((e - 1) as nat) as int, pow2((150 - e) as nat) as int);
                vstd::arithmetic::power2::lemma_pow2_adds((150 - e) as nat, (e - 1) as nat);
                vstd::arithmetic::power2::lemma_pow2_pos((e - 1) as nat);
                vstd::arithmetic::power2::lemma_pow2_pos((150 - e) as nat);
                assert((full * p == k * one) == (full == k * q)) by (nonlinear_arith)
                    requires
                        one == q * p,
                        p > 0,
                ;
                if full == k * q {
                    vstd::arithmetic::div_mod::lemma_fundamental_div_mod_converse(full, q, k, 0);
                }
                if full % q == 0 {
                    vstd::arithmetic::div_mod::lemma_fundamental_div_mod(full, q);
                    let d = full / q;
                    assert(full == q * d);
                    if d == k {
                        assert(full == k * q) by (nonlinear_arith)
                            requires
                                full == q * d,
                                d == k,
                        ;
                    }
                }
            } else {
                let (p, q) = (pow2((e - 1) as nat) as int, pow2((e - 150) as nat) as int);
                vstd::arithmetic::power2::lemma_pow2_adds((e - 150) as nat, 149);
                assert((full * p == k * one) == (full * q == k)) by (nonlinear_arith)
                    requires
                        p == q * one,
                        one > 0,
                ;
            }
        }
    }
}

} // verus!
