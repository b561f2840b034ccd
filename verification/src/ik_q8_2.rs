//! The integer half of ik's rule for a Q8_0 weight times q8_2 activations on
//! its AVX2 build: the codes paired and summed as the byte instructions do.
use vstd::prelude::*;

verus! {

/// Values per Q8_0 and q8_2 block.
pub const QK: usize = 32;

/// One Q8_0 weight block: its scale's half-precision bits and its codes.
#[derive(Clone, Copy, Debug)]
pub struct Q8Block {
    pub d: u16,
    pub q: [i8; 32],
}

/// `-a` in eight bits: −128 stays −128.
pub open spec fn wrapped_neg(a: i8) -> int {
    if a == -128 {
        -128
    } else {
        -a
    }
}

/// The activation code that a signed byte product pairs with weight code `w`.
pub open spec fn folded_code(w: i8, a: i8) -> int {
    if w < 0 {
        wrapped_neg(a)
    } else if w == 0 {
        0
    } else {
        a as int
    }
}

/// The activation code paired with weight code `w`: `a` under a positive
/// weight, `−a` under a negative one, wrapping, so −128 stays −128, and 0
/// under a zero weight.
pub fn folded(w: i8, a: i8) -> (r: i8)
    ensures
        r == folded_code(w, a),
{
    if w < 0 {
        if a == -128 {
            -128
        } else {
            -a
        }
    } else if w == 0 {
        0
    } else {
        a
    }
}

/// The magnitude of a weight code: −128 has magnitude 128.
pub open spec fn magnitude(w: i8) -> int {
    if w < 0 {
        -w
    } else {
        w as int
    }
}

/// One product of the byte instructions.
pub open spec fn term(w: i8, a: i8) -> int {
    magnitude(w) * folded_code(w, a)
}

/// The products of the first `n` values from `from` on, summed.
pub open spec fn term_sum(w: Seq<i8>, a: Seq<i8>, from: int, n: int) -> int
    decreases n,
{
    if n <= 0 {
        0
    } else {
        term_sum(w, a, from, n - 1) + term(w[from + n - 1], a[from + n - 1])
    }
}

/// A product of two codes stays in [−128·128, 128·127].
pub proof fn lemma_term_range(w: i8, a: i8)
    ensures
        -16384 <= term(w, a) <= 16256,
{
    let m = magnitude(w);
    let f = folded_code(w, a);
    assert(-16384 <= m * f <= 16256) by (nonlinear_arith)
        requires
            0 <= m <= 128,
            -128 <= f <= 127,
    ;
}

/// One product, as the instructions form it.
fn product(w: i8, a: i8) -> (r: i32)
    ensures
        r == term(w, a),
        -16384 <= r <= 16256,
{
    proof {
        lemma_term_range(w, a);
    }
    let m: i32 = if w < 0 {
        -(w as i32)
    } else {
        w as i32
    };
    let f: i32 = folded(w, a) as i32;
    m * f
}

/// ik's integer partial of one lane: values `16h .. 16h + 16` of weight block
/// `w` against activation codes `a` (the block's 32). The byte pairs are
/// summed into sixteen bits with saturation, which no pair reaches: a pair
/// lies in [−2·128·128, 2·128·127]. The rest adds exactly, so the partial is
/// the sum of the sixteen products.
pub fn half_sum(w: &Q8Block, a: &[i8], h: usize) -> (r: i32)
    requires
        h < 2,
        16 * h + 16 <= a@.len(),
    ensures
        r == term_sum(w.q@, a@, 16 * h as int, 16),
        -16 * 16384 <= r <= 16 * 16256,
{
    let mut sum: i32 = 0;
    let mut m: usize = 0;
    while m < 8
        invariant
            m <= 8,
            h < 2,
            16 * h + 16 <= a@.len(),
            w.q@.len() == 32,
            sum == term_sum(w.q@, a@, 16 * h as int, 2 * m as int),
            -32768 * m <= sum <= 32512 * m,
        decreases 8 - m,
    {
        let v: usize = 16 * h + 2 * m;
        let first: i32 = product(w.q[v], a[v]);
        let second: i32 = product(w.q[v + 1], a[v + 1]);
        let pair: i32 = first + second;
        let clamped: i32 = if pair < -32768 {
            -32768
        } else if pair > 32767 {
            32767
        } else {
            pair
        };
        assert(clamped == pair);
        proof {
            reveal_with_fuel(term_sum, 3);
        }
        sum = sum + clamped;
        m += 1;
    }
    sum
}

/// ik's integer dot of weight block `w` with activation codes `a`: its two
/// [`half_sum`]s.
pub fn block_sum(w: &Q8Block, a: &[i8]) -> (r: i32)
    requires
        32 <= a@.len(),
    ensures
        r == term_sum(w.q@, a@, 0, 32),
{
    let lo: i32 = half_sum(w, a, 0);
    let hi: i32 = half_sum(w, a, 1);
    proof {
        lemma_term_sum_splits(w.q@, a@, 16);
    }
    lo + hi
}

proof fn lemma_term_sum_splits(w: Seq<i8>, a: Seq<i8>, n: int)
    requires
        0 <= n,
    ensures
        term_sum(w, a, 0, 16 + n) == term_sum(w, a, 0, 16) + term_sum(w, a, 16, n),
    decreases n,
{
    if n > 0 {
        lemma_term_sum_splits(w, a, n - 1);
    }
}

/// The plain dot product of the first `n` codes.
pub open spec fn dot_product(w: Seq<i8>, a: Seq<i8>, n: int) -> int
    decreases n,
{
    if n <= 0 {
        0
    } else {
        dot_product(w, a, n - 1) + w[n - 1] * a[n - 1]
    }
}

/// The rule computes the plain dot product wherever no activation code −128
/// meets a negative weight, the one pair whose sign the byte negation loses.
pub proof fn law_block_sum_is_the_dot_product(w: Seq<i8>, a: Seq<i8>, n: int)
    requires
        0 <= n <= w.len(),
        n <= a.len(),
        forall|i: int| 0 <= i < n ==> !(#[trigger] a[i] == -128 && w[i] < 0),
    ensures
        term_sum(w, a, 0, n) == dot_product(w, a, n),
    decreases n,
{
    if n > 0 {
        law_block_sum_is_the_dot_product(w, a, n - 1);
        let x = w[n - 1] as int;
        let y = a[n - 1] as int;
        assert(!(a[n - 1] == -128 && w[n - 1] < 0));
        assert((-x) * (-y) == x * y) by (nonlinear_arith);
        assert(0 * y == 0) by (nonlinear_arith);
    }
}

/// A product of two codes is folded onto the weight's sign: it is the product
/// itself, save where the activation is the least code and the weight negative,
/// whose sign cannot be turned: there it is the product's opposite.
pub proof fn law_a_folded_term_is_the_product(w: i8, a: i8)
    ensures
        !(a == -128 && w < 0) ==> magnitude(w) * folded_code(w, a) == w * a,
        a == -128 && w < 0 ==> magnitude(w) * folded_code(w, a) == -(w * a),
        -128 <= folded_code(w, a) <= 127,
        0 <= magnitude(w) <= 128,
{
    assert((-w) * (-a) == w * a) by (nonlinear_arith);
    assert((-w) * (-128) == -(w * (-128))) by (nonlinear_arith);
    assert(0 * a == 0);
}

} // verus!
