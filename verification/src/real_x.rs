//! The real-activation probe's sites: the chains of a dumped input, a weight and
//! the output the reference made of them, what proves a chain before a number is
//! read, and the summary of a family's lines.
//!
//! Singles are held by their bits.
use crate::manifest::opt_chars;
use crate::manifest::RefRow;
use crate::model_file::GgmlType;
use crate::rank;
use crate::rank::is_top;
use crate::rawx::total_key;
use crate::text;
use crate::text::decimal;
use vstd::prelude::*;

verus! {

/// The output head's rows a probe drives: the full head adds nothing that the
/// first of them do not show.
pub const HEAD_ROWS: usize = 4096;

/// The most token columns a probe drives.
pub const MAX_COLUMNS: u64 = 8;

// ------------------------------------------------------------ the chains

/// One chain: a dumped input through a weight to a dumped output.
#[derive(Clone, Debug)]
pub struct Chain {
    pub label: String,
    pub input: String,
    pub weight: String,
    pub output: String,
    pub ty: GgmlType,
    pub row_cap: Option<usize>,
}

/// A name with a layer behind a hyphen.
pub open spec fn dumped(stem: Seq<char>, l: nat) -> Seq<char> {
    stem + "-"@ + decimal(l)
}

/// A layer's weight.
pub open spec fn weight(infix: Seq<char>, l: nat) -> Seq<char> {
    "blk."@ + decimal(l) + "."@ + infix + ".weight"@
}

/// A site's label in a layer.
pub open spec fn labelled(site: Seq<char>, l: nat) -> Seq<char> {
    site + " L="@ + decimal(l)
}

/// What a chain of a layer is.
pub open spec fn is_chain(
    c: &Chain,
    site: Seq<char>,
    input: Seq<char>,
    infix: Seq<char>,
    output: Seq<char>,
    ty: GgmlType,
    l: nat,
) -> bool {
    &&& c.label@ == labelled(site, l)
    &&& c.input@ == dumped(input, l)
    &&& c.weight@ == weight(infix, l)
    &&& c.output@ == dumped(output, l)
    &&& c.ty == ty
    &&& c.row_cap is None
}

/// The layers a probe drives.
pub open spec fn probed_layer(i: int) -> nat {
    if i == 0 {
        0
    } else if i == 1 {
        1
    } else if i == 2 {
        13
    } else {
        26
    }
}

/// Whether a chain is the one at an index of the list.
pub open spec fn chain_at(c: &Chain, i: int) -> bool {
    let l = probed_layer(i / 3);
    if i >= 12 {
        &&& c.label@ == "head"@
        &&& c.input@ == "result_norm"@
        &&& c.weight@ == "output.weight"@
        &&& c.output@ == "result_output"@
        &&& c.ty == GgmlType::Q6_K
        &&& c.row_cap == Some(HEAD_ROWS)
    } else if i % 3 == 0 {
        is_chain(c, "attn_q"@, "attn_norm"@, "attn_q"@, "q"@, GgmlType::Q3_K, l)
    } else if i % 3 == 1 {
        is_chain(
            c,
            "attn_kv_a_mqa"@,
            "attn_norm"@,
            "attn_kv_a_mqa"@,
            "kv_rope_compressed"@,
            GgmlType::Q3_K,
            l,
        )
    } else {
        is_chain(c, "attn_output"@, "kqv_2d"@, "attn_output"@, "kqv_out"@, GgmlType::Q4_K, l)
    }
}

/// A name with a layer behind a hyphen.
fn name_of(stem: &str, l: u64) -> (r: String)
    ensures
        r@ == dumped(stem@, l as nat),
{
    let mut cs: Vec<char> = text::chars_of(stem);
    text::push_str(&mut cs, "-");
    text::push_decimal(&mut cs, l);
    text::string_of(cs.as_slice())
}

/// A layer's weight.
fn weight_name(infix: &str, l: u64) -> (r: String)
    ensures
        r@ == weight(infix@, l as nat),
{
    let mut cs: Vec<char> = text::chars_of("blk.");
    text::push_decimal(&mut cs, l);
    text::push_str(&mut cs, ".");
    text::push_str(&mut cs, infix);
    text::push_str(&mut cs, ".weight");
    text::string_of(cs.as_slice())
}

/// A site's label in a layer.
fn label_of(site: &str, l: u64) -> (r: String)
    ensures
        r@ == labelled(site@, l as nat),
{
    let mut cs: Vec<char> = text::chars_of(site);
    text::push_str(&mut cs, " L=");
    text::push_decimal(&mut cs, l);
    text::string_of(cs.as_slice())
}

/// A chain of a layer.
fn chain(site: &str, input: &str, infix: &str, output: &str, ty: GgmlType, l: u64) -> (r: Chain)
    ensures
        is_chain(&r, site@, input@, infix@, output@, ty, l as nat),
{
    Chain {
        label: label_of(site, l),
        input: name_of(input, l),
        weight: weight_name(infix, l),
        output: name_of(output, l),
        ty,
        row_cap: None,
    }
}

/// The product chains: the query, the compressed keys and values and the output
/// projection of four layers, then the head.
pub fn chains() -> (r: Vec<Chain>)
    ensures
        r@.len() == 13,
        forall|i: int| 0 <= i < 13 ==> chain_at(&#[trigger] r@[i], i),
{
    let mut v: Vec<Chain> = Vec::new();
    let mut i: usize = 0;
    while i < 4
        invariant
            i <= 4,
            v@.len() == 3 * i,
            forall|j: int| 0 <= j < 3 * i ==> chain_at(&#[trigger] v@[j], j),
        decreases 4 - i,
    {
        let l: u64 = if i == 0 {
            0
        } else if i == 1 {
            1
        } else if i == 2 {
            13
        } else {
            26
        };
        v.push(chain("attn_q", "attn_norm", "attn_q", "q", GgmlType::Q3_K, l));
        v.push(
            chain(
                "attn_kv_a_mqa",
                "attn_norm",
                "attn_kv_a_mqa",
                "kv_rope_compressed",
                GgmlType::Q3_K,
                l,
            ),
        );
        v.push(chain("attn_output", "kqv_2d", "attn_output", "kqv_out", GgmlType::Q4_K, l));
        i += 1;
    }
    v.push(
        Chain {
            label: text::string_of(text::chars_of("head").as_slice()),
            input: text::string_of(text::chars_of("result_norm").as_slice()),
            weight: text::string_of(text::chars_of("output.weight").as_slice()),
            output: text::string_of(text::chars_of("result_output").as_slice()),
            ty: GgmlType::Q6_K,
            row_cap: Some(HEAD_ROWS),
        },
    );
    v
}

// ------------------------------------------------------------ proofs of a chain

/// Why a chain's dims do not prove it.
#[derive(Clone, Copy, Debug, PartialEq, Eq, Structural)]
pub enum ChainError {
    /// The weight holds fewer bytes than its rows take.
    Weight,
    /// The input is no f32 block of the weight's width.
    Input,
    /// The input's tokens are not those a probe drives.
    Tokens,
    /// The output is not the product's.
    Output,
}

/// The product of the first `n` dims past the first.
pub open spec fn rows_product(dims: Seq<u64>, n: int) -> int
    decreases n,
{
    if n <= 1 {
        1
    } else {
        rows_product(dims, n - 1) * dims[n - 1]
    }
}

/// The product fits, however far it is taken.
pub open spec fn rows_fit(dims: Seq<u64>) -> bool {
    forall|n: int| 1 <= n <= dims.len() ==> #[trigger] rows_product(dims, n) <= usize::MAX
}

/// The rows of a weight: every dim past the first.
pub fn total_rows(dims: &[u64]) -> (r: usize)
    requires
        rows_fit(dims@),
    ensures
        r == rows_product(dims@, dims@.len() as int),
{
    let mut r: usize = 1;
    let mut i: usize = 1;
    assert(dims@.len() >= 1 ==> rows_product(dims@, 1) == 1);
    while i < dims.len()
        invariant
            1 <= i,
            rows_fit(dims@),
            r == rows_product(dims@, if i as int <= dims@.len() {
                i as int
            } else {
                dims@.len() as int
            }),
        decreases dims@.len() - i,
    {
        let d: u64 = dims[i];
        proof {
            assert(rows_product(dims@, i + 1) == rows_product(dims@, i as int) * d);
            assert(rows_product(dims@, i + 1) <= usize::MAX);
            if r > 0 {
                assert(d <= r * d) by (nonlinear_arith)
                    requires
                        r >= 1,
                        d >= 0,
                ;
            }
        }
        if r == 0 {
            assert(0 * d as int == 0);
        } else {
            r = r * d as usize;
        }
        i += 1;
    }
    r
}

/// The rows driven: all of them, or the cap where that is fewer.
pub open spec fn driven(total: usize, cap: Option<usize>) -> usize {
    match cap {
        Some(c) => if c < total {
            c
        } else {
            total
        },
        None => total,
    }
}

/// What a proved chain drives.
#[derive(Clone, Copy, Debug, PartialEq, Eq, Structural)]
pub struct Driven {
    pub rows: usize,
    pub m: u64,
}

/// Whether a row is a plain f32 block of a width.
pub open spec fn is_input(row: RefRow, k: u64) -> bool {
    row.ty@ == "f32"@ && row.ne[0] == k && row.ne[2] == 1 && row.ne[3] == 1
}

/// Whether a row is the product an op made of rows and tokens.
pub open spec fn is_output(row: RefRow, op: Seq<char>, rows: usize, m: u64) -> bool {
    row.op@ == op && row.ne[0] == rows && row.ne[1] == m
}

/// Whether a chain's dims prove it: the weight holds its rows, the input is a
/// plain f32 block of the weight's width and of one to eight tokens, and the
/// output is the op's, of the weight's rows and the input's tokens.
pub fn prove_chain(
    weight_len: usize,
    row_bytes: usize,
    k: u64,
    total: usize,
    cap: Option<usize>,
    input: &RefRow,
    output: &RefRow,
    op: &str,
) -> (r: Result<Driven, ChainError>)
    ensures
        ({
            let rows = driven(total, cap);
            r == (if weight_len < row_bytes * rows {
                Err::<Driven, ChainError>(ChainError::Weight)
            } else if !is_input(*input, k) {
                Err(ChainError::Input)
            } else if !(1 <= input.ne[1] <= 8) {
                Err(ChainError::Tokens)
            } else if !is_output(*output, op@, total, input.ne[1]) {
                Err(ChainError::Output)
            } else {
                Ok(Driven { rows, m: input.ne[1] })
            })
        }),
{
    let rows: usize = match cap {
        Some(c) => if c < total {
            c
        } else {
            total
        },
        None => total,
    };
    assert(row_bytes * rows <= 0xffff_ffff_ffff_ffff * 0xffff_ffff_ffff_ffff) by (nonlinear_arith)
        requires
            row_bytes <= 0xffff_ffff_ffff_ffff,
            rows <= 0xffff_ffff_ffff_ffff,
    ;
    if (weight_len as u128) < row_bytes as u128 * rows as u128 {
        return Err(ChainError::Weight);
    }
    if !text::same_str(input.ty.as_str(), "f32") || input.ne[0] != k || input.ne[2] != 1
        || input.ne[3] != 1 {
        return Err(ChainError::Input);
    }
    let m: u64 = input.ne[1];
    if m < 1 || m > MAX_COLUMNS {
        return Err(ChainError::Tokens);
    }
    if !text::same_str(output.op.as_str(), op) || output.ne[0] != total as u64 || output.ne[1] != m {
        return Err(ChainError::Output);
    }
    Ok(Driven { rows, m })
}

/// Why a fused gate and up site does not prove itself.
#[derive(Clone, Copy, Debug, PartialEq, Eq, Structural)]
pub enum SwigluError {
    /// The output is no fused gate and up.
    Op,
    /// Its operands are not the up weight and the gating weight, in that order.
    Operands,
    /// The dims do not prove the chain.
    Dims,
}

/// An operand is a tensor's name.
pub open spec fn named(src: Option<String>, name: Seq<char>) -> bool {
    opt_chars(src) == Some(name)
}

/// Whether an operand is a tensor's name.
fn is_named(src: &Option<String>, name: &str) -> (r: bool)
    ensures
        r == named(*src, name@),
{
    match src {
        Some(s) => text::same_str(s.as_str(), name),
        None => false,
    }
}

/// The dims both weights of a fused site must have: the input's width and the
/// output's rows. The operand order is the manifest's, asserted before any
/// number is read: the first is the up projection, the second the gating one.
pub fn prove_swiglu(output: &RefRow, input: &RefRow, gate: &str, up: &str) -> (r: Result<
    [u64; 2],
    SwigluError,
>)
    ensures
        match r {
            Ok(d) => {
                &&& output.op@ == "FUSED_UP_GATE"@
                &&& named(output.src0, up@)
                &&& named(output.src1, gate@)
                &&& output.ne[1] == input.ne[1]
                &&& input.ne[2] == 1
                &&& input.ne[3] == 1
                &&& d@ == seq![input.ne[0], output.ne[0]]
            },
            Err(SwigluError::Op) => output.op@ != "FUSED_UP_GATE"@,
            Err(SwigluError::Operands) => output.op@ == "FUSED_UP_GATE"@ && !(named(
                output.src0,
                up@,
            ) && named(output.src1, gate@)),
            Err(SwigluError::Dims) => output.op@ == "FUSED_UP_GATE"@ && named(output.src0, up@)
                && named(output.src1, gate@) && !(output.ne[1] == input.ne[1] && input.ne[2] == 1
                && input.ne[3] == 1),
        },
{
    if !text::same_str(output.op.as_str(), "FUSED_UP_GATE") {
        return Err(SwigluError::Op);
    }
    if !is_named(&output.src0, up) || !is_named(&output.src1, gate) {
        return Err(SwigluError::Operands);
    }
    if output.ne[1] != input.ne[1] || input.ne[2] != 1 || input.ne[3] != 1 {
        return Err(SwigluError::Dims);
    }
    let d: [u64; 2] = [input.ne[0], output.ne[0]];
    assert(d@ =~= seq![input.ne[0], output.ne[0]]);
    Ok(d)
}

/// The words of one weight row on the card; none where the rows do not divide
/// the words.
pub fn row_words(words: usize, rows: usize) -> (r: Option<usize>)
    requires
        0 < rows,
    ensures
        r == (if words % rows != 0 {
            None::<usize>
        } else {
            Some((words / rows) as usize)
        }),
{
    if words % rows != 0 {
        None
    } else {
        Some(words / rows)
    }
}

/// The product kernel of a K-quant type.
pub fn gemv_kernel(ty: GgmlType) -> (r: Option<&'static str>)
    ensures
        match ty {
            GgmlType::Q3_K => r is Some && r->0@ == "q3k"@,
            GgmlType::Q4_K => r is Some && r->0@ == "q4k"@,
            GgmlType::Q6_K => r is Some && r->0@ == "q6k"@,
            _ => r is None,
        },
{
    match ty {
        GgmlType::Q3_K => Some("q3k"),
        GgmlType::Q4_K => Some("q4k"),
        GgmlType::Q6_K => Some("q6k"),
        _ => None,
    }
}

/// The words of one packed row of 5-bit values of width `k`: the quants of
/// whole groups of 32 blocks, then one scale word a block, or two.
pub fn packed_words(k: usize, two_scales: bool) -> (r: usize)
    requires
        k <= 0x100_0000,
    ensures
        r == 256 * ((k / 32 + 31) / 32) + (if two_scales {
            2int
        } else {
            1
        }) * (k as int / 32),
{
    let blocks: usize = k / 32;
    let stride: usize = 256 * ((blocks + 31) / 32);
    if two_scales {
        stride + 2 * blocks
    } else {
        stride + blocks
    }
}

/// How a line names its rows: the rows driven, and of how many where the cap
/// left some out.
pub open spec fn rows_text(rows: usize, total: usize, cap: Option<usize>) -> Seq<char> {
    if cap matches Some(c) && c < total {
        decimal(rows as nat) + "/"@ + decimal(total as nat)
    } else {
        decimal(rows as nat)
    }
}

/// How a line names its rows.
pub fn rows_note(rows: usize, total: usize, cap: Option<usize>) -> (r: String)
    ensures
        r@ == rows_text(rows, total, cap),
{
    let mut cs: Vec<char> = Vec::new();
    text::push_decimal(&mut cs, rows as u64);
    assert(Seq::<char>::empty() + decimal(rows as nat) =~= decimal(rows as nat));
    let some_left_out: bool = match cap {
        Some(c) => c < total,
        None => false,
    };
    if some_left_out {
        text::push_str(&mut cs, "/");
        text::push_decimal(&mut cs, total as u64);
    }
    text::string_of(cs.as_slice())
}

// ------------------------------------------------------------ orders

/// A dump tensor of `rows` values a token in the kernels' order: value `(r, t)`
/// of the dump at `t * rows + r` comes to `r * m + t`.
pub open spec fn transposed(v: Seq<u32>, rows: int, m: int) -> Seq<u32> {
    Seq::new((rows * m) as nat, |i: int| v[(i % m) * rows + i / m])
}

/// Reshapes a dump tensor from its order into the kernels' output order, so a
/// dump row compares element for element with a kernel's output.
pub fn ik_to_ours(ik: &[u32], rows: usize, m: usize) -> (r: Vec<u32>)
    requires
        rows * m <= ik@.len(),
    ensures
        r@ == transposed(ik@, rows as int, m as int),
{
    let len: usize = ik.len();
    assert(rows * m <= len);
    let n: usize = rows * m;
    let mut out: Vec<u32> = Vec::new();
    let mut i: usize = 0;
    while i < n
        invariant
            n == rows * m,
            n <= len == ik@.len(),
            i <= n,
            out@ =~= transposed(ik@, rows as int, m as int).take(i as int),
        decreases n - i,
    {
        assert(m > 0) by (nonlinear_arith)
            requires
                i < rows * m,
                i >= 0,
                rows >= 0,
                m >= 0,
        ;
        let t: usize = i % m;
        let r: usize = i / m;
        proof {
            vstd::arithmetic::div_mod::lemma_fundamental_div_mod(i as int, m as int);
            assert(r < rows) by (nonlinear_arith)
                requires
                    i == m * r + t,
                    i < rows * m,
                    0 <= t,
                    0 < m,
            ;
            assert(0 <= t * rows <= t * rows + r < rows * m) by (nonlinear_arith)
                requires
                    0 <= t < m,
                    0 <= r < rows,
            ;
        }
        out.push(ik[t * rows + r]);
        i += 1;
    }
    out
}

/// Reshaping twice, the second time with rows and tokens exchanged, gives the
/// tensor back.
pub proof fn law_reshaping_twice_is_the_tensor(v: Seq<u32>, rows: int, m: int)
    requires
        0 < rows,
        0 < m,
        v.len() == rows * m,
    ensures
        transposed(transposed(v, rows, m), m, rows) == v,
{
    let a = transposed(v, rows, m);
    let b = transposed(a, m, rows);
    assert(m * rows == rows * m) by (nonlinear_arith);
    assert forall|i: int| 0 <= i < v.len() implies b[i] == v[i] by {
        let r = i % rows;
        let t = i / rows;
        vstd::arithmetic::div_mod::lemma_fundamental_div_mod(i, rows);
        assert(0 <= t < m) by (nonlinear_arith)
            requires
                i == rows * t + r,
                0 <= i < rows * m,
                0 <= r < rows,
        ;
        let j = r * m + t;
        assert(0 <= j < rows * m) by (nonlinear_arith)
            requires
                j == r * m + t,
                0 <= r < rows,
                0 <= t < m,
        ;
        assert(b[i] == a[j]);
        assert(r * m == m * r) by (nonlinear_arith);
        vstd::arithmetic::div_mod::lemma_fundamental_div_mod_converse(j, m, r, t);
        assert(a[j] == v[t * rows + r]);
        assert(t * rows == rows * t) by (nonlinear_arith);
    }
    assert(b =~= v);
}

// ------------------------------------------------------------ summaries

/// The keys of a list in the total order of the singles.
pub open spec fn keys(v: Seq<u32>) -> Seq<i64> {
    Seq::new(v.len(), |i: int| total_key(v[i]) as i64)
}

/// The largest of a list, and the two that its median is the middle of: the
/// same one twice where the count is odd.
#[derive(Clone, Copy, Debug, PartialEq, Eq, Structural)]
pub struct Spread {
    pub max: u32,
    pub mid_low: u32,
    pub mid_high: u32,
}

/// Whether a spread is a list's, read off its values in falling order.
pub open spec fn is_spread(v: Seq<u32>, s: Spread) -> bool {
    exists|ids: Seq<usize>| #[trigger]
        is_top(ids, keys(v), v.len() as int) && s.max == v[ids[0] as int] && s.mid_low
            == v[ids[v.len() as int / 2] as int] && s.mid_high == v[ids[(v.len() - 1) / 2] as int]
}

/// The spread of a family's lines; none where there is none.
pub fn spread(v: &[u32]) -> (r: Option<Spread>)
    ensures
        r is None <==> v@.len() == 0,
        r matches Some(s) ==> is_spread(v@, s),
{
    let n: usize = v.len();
    if n == 0 {
        return None;
    }
    let mut ks: Vec<i64> = Vec::new();
    let mut i: usize = 0;
    while i < n
        invariant
            n == v@.len(),
            i <= n,
            ks@ =~= keys(v@).take(i as int),
        decreases n - i,
    {
        let x: u32 = v[i];
        let k: i64 = if x >= 0x8000_0000 {
            0x7fff_ffff - x as i64
        } else {
            x as i64
        };
        ks.push(k);
        i += 1;
    }
    assert(ks@ =~= keys(v@));
    let ids: Vec<usize> = rank::top(ks.as_slice(), n);
    let hi: usize = (n - 1) / 2;
    let a: usize = ids[0];
    let b: usize = ids[n / 2];
    let c: usize = ids[hi];
    let s: Spread = Spread { max: v[a], mid_low: v[b], mid_high: v[c] };
    assert(is_top(ids@, keys(v@), v@.len() as int));
    Some(s)
}

// ------------------------------------------------------------ the packaging probe

/// The bytes of the packaging probe's weight stack: 27 square Q4_K tensors.
pub const STACK_BYTES: u64 = 63700992;

/// Whether a weight stack is the one the packaging probe reads.
pub fn is_stack(len: u64) -> (r: bool)
    ensures
        r == (len % 4 == 0 && len == 55296 * 1152),
{
    len == STACK_BYTES
}

/// Whether the packaging gate held: the replay is the eager sequence bit for
/// bit, in two nodes, and within the reference's band.
pub fn replay_held(eager: &[u32], graph: &[u32], nodes: usize, ref_ok: bool) -> (r: bool)
    ensures
        r == (eager@ == graph@ && nodes == 2 && ref_ok),
{
    crate::bits::bits_equal(eager, graph) && nodes == 2 && ref_ok
}

// ------------------------------------------------------------ what the chains drive

/// A tensor's rows are the product of its axes past the first.
pub proof fn law_the_axes_past_the_first_multiply(dims: Seq<u64>, d: u64)
    requires
        dims.len() >= 1,
    ensures
        rows_product(dims.take(1), 1) == 1,
        rows_product(dims.push(d), dims.len() as int + 1) == rows_product(dims, dims.len() as int) * d,
{
    lemma_rows_of_prefix(dims, d, dims.len() as int);
}

proof fn lemma_rows_of_prefix(dims: Seq<u64>, d: u64, n: int)
    requires
        n <= dims.len(),
    ensures
        rows_product(dims.push(d), n) == rows_product(dims, n),
    decreases n,
{
    if n > 1 {
        lemma_rows_of_prefix(dims, d, n - 1);
        assert(dims.push(d)[n - 1] == dims[n - 1]);
    }
}

/// The rows driven are all of them, or the cap where that is fewer.
pub proof fn law_the_driven_rows_are_capped(total: usize, cap: Option<usize>)
    ensures
        driven(total, cap) <= total,
        cap matches Some(c) ==> driven(total, cap) <= c && (driven(total, cap) == total || driven(
            total,
            cap,
        ) == c),
        cap is None ==> driven(total, cap) == total,
{
}

/// The value of a row and a column stands at the column's place of that row in the
/// one layout and at the row's place of that column in the other.
pub proof fn law_a_value_keeps_its_row_and_column(v: Seq<u32>, rows: int, m: int, r: int, c: int)
    requires
        v.len() == rows * m,
        0 <= r < rows,
        0 <= c < m,
    ensures
        transposed(v, rows, m).len() == rows * m,
        0 <= r * m + c < rows * m,
        transposed(v, rows, m)[r * m + c] == v[c * rows + r],
{
    assert(0 <= r * m + c < rows * m) by (nonlinear_arith)
        requires
            0 <= r < rows,
            0 <= c < m,
    ;
    vstd::arithmetic::div_mod::lemma_fundamental_div_mod_converse(r * m + c, m, r, c);
}

/// Of values that do not rise, the spread's largest is the first, and its middle
/// the one in the middle, or the two round it.
pub proof fn law_a_spread_is_the_first_and_the_middle(v: Seq<u32>, s: Spread)
    requires
        is_spread(v, s),
        v.len() > 0,
        forall|i: int, j: int|
            0 <= i < j < v.len() ==> total_key(#[trigger] v[i]) >= total_key(#[trigger] v[j]),
    ensures
        s.max == v[0],
        s.mid_low == v[v.len() as int / 2],
        s.mid_high == v[(v.len() - 1) / 2],
        v.len() % 2 == 1 ==> s.mid_low == s.mid_high,
{
    let n = v.len() as int;
    let ids = choose|ids: Seq<usize>| #[trigger]
        is_top(ids, keys(v), n) && s.max == v[ids[0] as int] && s.mid_low == v[ids[n / 2] as int]
            && s.mid_high == v[ids[(n - 1) / 2] as int];
    assert forall|a: int, b: int| 0 <= a < b < n implies #[trigger] ids[a] < #[trigger] ids[b] by {
        let (x, y) = (ids[a] as int, ids[b] as int);
        assert(crate::rank::comes_before(keys(v), x, y));
        assert(keys(v)[x] == total_key(v[x]) && keys(v)[y] == total_key(v[y]));
        if y < x {
            assert(total_key(v[y]) >= total_key(v[x]));
        }
    }
    lemma_rising_is_counting(ids, n, 0);
    lemma_rising_is_counting(ids, n, n / 2);
    lemma_rising_is_counting(ids, n, (n - 1) / 2);
}

proof fn lemma_rising_is_counting(ids: Seq<usize>, n: int, a: int)
    requires
        ids.len() == n,
        0 <= a < n,
        forall|i: int| 0 <= i < n ==> #[trigger] ids[i] < n,
        forall|i: int, j: int| 0 <= i < j < n ==> #[trigger] ids[i] < #[trigger] ids[j],
    ensures
        ids[a] == a,
{
    lemma_at_least(ids, n, a);
    lemma_at_most(ids, n, a);
}

proof fn lemma_at_least(ids: Seq<usize>, n: int, a: int)
    requires
        ids.len() == n,
        0 <= a < n,
        forall|i: int, j: int| 0 <= i < j < n ==> #[trigger] ids[i] < #[trigger] ids[j],
    ensures
        ids[a] >= a,
    decreases a,
{
    if a > 0 {
        lemma_at_least(ids, n, a - 1);
        assert(ids[a - 1] < ids[a]);
    }
}

proof fn lemma_at_most(ids: Seq<usize>, n: int, a: int)
    requires
        ids.len() == n,
        0 <= a < n,
        forall|i: int| 0 <= i < n ==> #[trigger] ids[i] < n,
        forall|i: int, j: int| 0 <= i < j < n ==> #[trigger] ids[i] < #[trigger] ids[j],
    ensures
        ids[a] <= a,
    decreases n - a,
{
    if a < n - 1 {
        lemma_at_most(ids, n, a + 1);
        assert(ids[a] < ids[a + 1]);
    }
}

/// The rows are told as a part of all where the cap left some out, and else alone.
pub proof fn law_capped_rows_are_told_of_all(rows: usize, total: usize, cap: Option<usize>)
    ensures
        rows_text(rows, total, cap).contains('/') <==> (cap matches Some(c) && c < total),
        text::opens_with(rows_text(rows, total, cap), decimal(rows as nat)),
        text::ends_with(
            rows_text(rows, total, cap),
            if cap matches Some(c) && c < total {
                decimal(total as nat)
            } else {
                decimal(rows as nat)
            },
        ),
{
    reveal_strlit("/");
    let (a, b) = (decimal(rows as nat), decimal(total as nat));
    let t = rows_text(rows, total, cap);
    assert(t.take(a.len() as int) =~= a);
    if cap matches Some(c) && c < total {
        assert(t[a.len() as int] == '/');
        assert(t.skip(t.len() - b.len()) =~= b);
    } else {
        text::lemma_decimal_value(rows as nat);
        assert forall|i: int| 0 <= i < t.len() implies t[i] != '/' by {
            assert(text::is_digit(a[i]));
        }
        assert(t.skip(0) =~= a);
    }
}

/// A chain stays in its layer: its input, its weight and its output are that
/// layer's, three chains a layer and the head last; the query and the latent read
/// the attention's norm, and the output projection what the attention gave.
pub proof fn law_a_chain_stays_in_its_layer(c: &Chain, i: int, l: Seq<char>)
    requires
        chain_at(c, i),
        0 <= i < 12,
        l == decimal(
            (if i < 3 {
                0nat
            } else if i < 6 {
                1
            } else if i < 9 {
                13
            } else {
                26
            }),
        ),
    ensures
        c.row_cap is None,
        i % 3 == 0 ==> c.label@ == "attn_q"@ + " L="@ + l && c.input@ == "attn_norm"@ + "-"@ + l
            && c.weight@ == "blk."@ + l + "."@ + "attn_q"@ + ".weight"@ && c.output@ == "q"@ + "-"@ + l
            && c.ty == GgmlType::Q3_K,
        i % 3 == 1 ==> c.label@ == "attn_kv_a_mqa"@ + " L="@ + l && c.input@ == "attn_norm"@ + "-"@ + l
            && c.weight@ == "blk."@ + l + "."@ + "attn_kv_a_mqa"@ + ".weight"@ && c.output@
            == "kv_rope_compressed"@ + "-"@ + l && c.ty == GgmlType::Q3_K,
        i % 3 == 2 ==> c.label@ == "attn_output"@ + " L="@ + l && c.input@ == "kqv_2d"@ + "-"@ + l
            && c.weight@ == "blk."@ + l + "."@ + "attn_output"@ + ".weight"@ && c.output@ == "kqv_out"@
            + "-"@ + l && c.ty == GgmlType::Q4_K,
{
}

/// An input fits its weight where its rows are as wide and there is one plane of
/// them, an output where it has a value for every row and token.
pub proof fn law_a_chains_ends_fit(row: RefRow, op: Seq<char>, k: u64, rows: usize, m: u64)
    ensures
        is_input(row, k) <==> (row.ty@ == "f32"@ && row.ne[0] == k && row.ne[2] * row.ne[3] == 1),
        is_output(row, op, rows, m) <==> (row.op@ == op && row.ne[0] == rows && row.ne[1] == m),
{
    let (a, b) = (row.ne[2] as int, row.ne[3] as int);
    assert(a * b == 1 <==> a == 1 && b == 1) by (nonlinear_arith)
        requires
            0 <= a,
            0 <= b,
    ;
}

/// An operand is the named one where it is there and has that name.
pub proof fn law_an_operand_is_told_by_its_name(src: String, name: Seq<char>)
    ensures
        named(Some(src), name) <==> src@ == name,
        !named(None, name),
{
}

} // verus!
