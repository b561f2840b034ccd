//! The activation-quantization floor's sites: which dumped intermediate meets
//! which weight rows, when a site is measured rather than skipped, and which
//! column is the worst. A site whose file length, tensor type or width does not
//! match the expected geometry is skipped rather than measured on a guessed
//! layout.
//!
//! Relative errors are singles by their bits.
use crate::bits;
use crate::model_file::GgmlType;
use crate::text;
use crate::text::decimal;
use vstd::prelude::*;

verus! {

/// One measurement site: the dumped intermediate `x_file`, the quantized
/// `tensor` whose product consumes it, and the `block` that product quantizes
/// activations with (128 for the K-quants, 32 for the others).
#[derive(Debug)]
pub struct Site {
    pub name: &'static str,
    pub layer: Option<u32>,
    pub x_file: String,
    pub tensor: String,
    pub ty: GgmlType,
    pub k: usize,
    pub block: usize,
    pub rows_cap: usize,
    pub note: &'static str,
}

/// What a layer's site is, before the layer is put into its names.
pub ghost struct SiteRow {
    pub name: Seq<char>,
    pub stem: Seq<char>,
    pub infix: Seq<char>,
    pub ty: GgmlType,
    pub k: int,
    pub block: int,
    pub note: Seq<char>,
}

/// The sites of a layer. `attn_output_post` measures the projection's output as
/// activations, beside `attn_output` on its input, so both readings exist.
pub open spec fn layer_row(i: int) -> SiteRow {
    if i == 0 {
        SiteRow {
            name: "attn_q"@,
            stem: "attn_norm"@,
            infix: "attn_q"@,
            ty: GgmlType::Q3_K,
            k: 2048,
            block: 128,
            note: ""@,
        }
    } else if i == 1 {
        SiteRow {
            name: "attn_output"@,
            stem: "kqv_2d"@,
            infix: "attn_output"@,
            ty: GgmlType::Q4_K,
            k: 2048,
            block: 128,
            note: "x is the o-projection's input: the reshaped attention output"@,
        }
    } else if i == 2 {
        SiteRow {
            name: "attn_output_post"@,
            stem: "kqv_out"@,
            infix: "attn_output"@,
            ty: GgmlType::Q4_K,
            k: 2048,
            block: 128,
            note: "x is the o-projection's output (kqv_out), measured for comparison"@,
        }
    } else if i == 3 {
        SiteRow {
            name: "moe_gate"@,
            stem: "ffn_norm"@,
            infix: "ffn_gate_exps"@,
            ty: GgmlType::Q3_K,
            k: 2048,
            block: 128,
            note: ""@,
        }
    } else if i == 4 {
        SiteRow {
            name: "shexp_down"@,
            stem: "ffn_up_gate"@,
            infix: "ffn_down_shexp"@,
            ty: GgmlType::Q4_K,
            k: 2816,
            block: 128,
            note: "x is the fused shared-expert silu(gate)*up product, width = the down K"@,
        }
    } else {
        SiteRow {
            name: "moe_down"@,
            stem: "ffn_moe_gate_par"@,
            infix: "ffn_down_exps"@,
            ty: GgmlType::Q5_0,
            k: 1408,
            block: 32,
            note: "x is tokens x experts x 1408; every 1408-value slice is one column"@,
        }
    }
}

/// The file of a layer's intermediate.
pub open spec fn x_file_of(stem: Seq<char>, layer: nat) -> Seq<char> {
    stem + "-"@ + decimal(layer) + ".0.f32"@
}

/// The weight of a layer.
pub open spec fn weight_of(infix: Seq<char>, layer: nat) -> Seq<char> {
    "blk."@ + decimal(layer) + "."@ + infix + ".weight"@
}

impl Site {
    /// This is the site of a row in a layer.
    pub open spec fn is_of(&self, row: SiteRow, layer: u32) -> bool {
        &&& self.name@ == row.name
        &&& self.layer == Some(layer)
        &&& self.x_file@ == x_file_of(row.stem, layer as nat)
        &&& self.tensor@ == weight_of(row.infix, layer as nat)
        &&& self.ty == row.ty
        &&& self.k == row.k
        &&& self.block == row.block
        &&& self.rows_cap == 2048
        &&& self.note@ == row.note
    }

    /// This is the lm head on the final norm's output.
    pub open spec fn is_head(&self) -> bool {
        &&& self.name@ == "lm_head"@
        &&& self.layer is None
        &&& self.x_file@ == "result_norm.0.f32"@
        &&& self.tensor@ == "output.weight"@
        &&& self.ty == GgmlType::Q6_K
        &&& self.k == 2048
        &&& self.block == 128
        &&& self.rows_cap == 4096
        &&& self.note@ == "x is the final-norm output, one token (the last)"@
    }
}

/// The layer a site of the list belongs to.
pub open spec fn layer_of(i: int) -> u32 {
    if i < 6 {
        1
    } else {
        13
    }
}

/// Whether a site is the one at an index of the list.
pub open spec fn stands_at(s: &Site, i: int) -> bool {
    if i < 12 {
        s.is_of(layer_row(i % 6), layer_of(i))
    } else {
        s.is_head()
    }
}

/// The site of a layer, its names with the layer in them.
fn layer_site(
    name: &'static str,
    layer: u32,
    stem: &str,
    infix: &str,
    ty: GgmlType,
    k: usize,
    block: usize,
    note: &'static str,
) -> (r: Site)
    ensures
        r.is_of(
            (SiteRow {
                name: name@,
                stem: stem@,
                infix: infix@,
                ty,
                k: k as int,
                block: block as int,
                note: note@,
            }),
            layer,
        ),
{
    let mut x: Vec<char> = text::chars_of(stem);
    text::push_str(&mut x, "-");
    text::push_decimal(&mut x, layer as u64);
    text::push_str(&mut x, ".0.f32");
    let mut w: Vec<char> = text::chars_of("blk.");
    text::push_decimal(&mut w, layer as u64);
    text::push_str(&mut w, ".");
    text::push_str(&mut w, infix);
    text::push_str(&mut w, ".weight");
    Site {
        name,
        layer: Some(layer),
        x_file: text::string_of(x.as_slice()),
        tensor: text::string_of(w.as_slice()),
        ty,
        k,
        block,
        rows_cap: 2048,
        note,
    }
}

/// Appends a layer's sites.
fn push_layer(out: &mut Vec<Site>, layer: u32)
    ensures
        final(out)@.len() == old(out)@.len() + 6,
        final(out)@.take(old(out)@.len() as int) =~= old(out)@,
        forall|i: int|
            0 <= i < 6 ==> (#[trigger] final(out)@[old(out)@.len() + i]).is_of(layer_row(i), layer),
{
    let ghost was = out@;
    out.push(layer_site("attn_q", layer, "attn_norm", "attn_q", GgmlType::Q3_K, 2048, 128, ""));
    out.push(
        layer_site(
            "attn_output",
            layer,
            "kqv_2d",
            "attn_output",
            GgmlType::Q4_K,
            2048,
            128,
            "x is the o-projection's input: the reshaped attention output",
        ),
    );
    out.push(
        layer_site(
            "attn_output_post",
            layer,
            "kqv_out",
            "attn_output",
            GgmlType::Q4_K,
            2048,
            128,
            "x is the o-projection's output (kqv_out), measured for comparison",
        ),
    );
    out.push(
        layer_site("moe_gate", layer, "ffn_norm", "ffn_gate_exps", GgmlType::Q3_K, 2048, 128, ""),
    );
    out.push(
        layer_site(
            "shexp_down",
            layer,
            "ffn_up_gate",
            "ffn_down_shexp",
            GgmlType::Q4_K,
            2816,
            128,
            "x is the fused shared-expert silu(gate)*up product, width = the down K",
        ),
    );
    out.push(
        layer_site(
            "moe_down",
            layer,
            "ffn_moe_gate_par",
            "ffn_down_exps",
            GgmlType::Q5_0,
            1408,
            32,
            "x is tokens x experts x 1408; every 1408-value slice is one column",
        ),
    );
    assert(forall|i: int|
        0 <= i < 6 ==> (#[trigger] out@[was.len() + i]).is_of(layer_row(i), layer));
}

/// The site list: layers 1 and 13 of every product the kernel gates cover, plus
/// the lm head on the final norm's output.
pub fn sites() -> (r: Vec<Site>)
    ensures
        r@.len() == 13,
        forall|i: int| 0 <= i < 13 ==> stands_at(&#[trigger] r@[i], i),
{
    let mut v: Vec<Site> = Vec::new();
    push_layer(&mut v, 1);
    let ghost first = v@;
    assert forall|i: int| 0 <= i < 6 implies stands_at(&#[trigger] first[i], i) by {
        assert(first[0 + i].is_of(layer_row(i), 1));
    }
    push_layer(&mut v, 13);
    let ghost both = v@;
    assert forall|i: int| 0 <= i < 12 implies stands_at(&#[trigger] both[i], i) by {
        if i < 6 {
            assert(both.take(6)[i] == first[i]);
            assert(stands_at(&first[i], i));
        } else {
            assert(both[6 + (i - 6)].is_of(layer_row(i - 6), 13));
        }
    }
    v.push(
        Site {
            name: "lm_head",
            layer: None,
            x_file: text::string_of(text::chars_of("result_norm.0.f32").as_slice()),
            tensor: text::string_of(text::chars_of("output.weight").as_slice()),
            ty: GgmlType::Q6_K,
            k: 2048,
            block: 128,
            rows_cap: 4096,
            note: "x is the final-norm output, one token (the last)",
        },
    );
    assert forall|i: int| 0 <= i < 13 implies stands_at(&#[trigger] v@[i], i) by {
        if i < 12 {
            assert(v@[i] == both[i]);
        }
    }
    v
}

// ------------------------------------------------------------ measuring

/// Why a site is skipped.
#[derive(Clone, Copy, Debug, PartialEq, Eq, Structural)]
pub enum Skip {
    /// The intermediate is not a whole number of columns of the site's width.
    Columns,
    /// The tensor is not of the site's type and width, or has no rows.
    Tensor,
    /// The tensor holds fewer bytes than its rows take.
    Rows,
}

/// What a site measures: its columns and its weight rows.
#[derive(Clone, Copy, Debug, PartialEq, Eq, Structural)]
pub struct Measured {
    pub cols: usize,
    pub rows: usize,
}

/// The rows of a site: the tensor's, capped. The second dim is the row count of
/// the first expert for the expert stacks, whose rows come first.
pub open spec fn rows_of(dim: u64, cap: usize) -> int {
    if dim <= cap {
        dim as int
    } else {
        cap as int
    }
}

/// Whether a site is measured, and on what: `x_len` the bytes of its
/// intermediate, `ty`, `dims` and `len` its tensor's, `row` the bytes of one
/// weight row.
pub fn measure(
    s: &Site,
    x_len: usize,
    ty: GgmlType,
    dims: &[u64],
    len: usize,
    row: usize,
) -> (r: Result<Measured, Skip>)
    requires
        0 < s.k,
        4 * s.k <= usize::MAX,
    ensures
        ({
            let rows = rows_of(dims@[1], s.rows_cap);
            r == (if x_len as int % (4 * s.k) != 0 {
                Err::<Measured, Skip>(Skip::Columns)
            } else if ty != s.ty || dims@.len() < 2 || dims@[0] != s.k {
                Err(Skip::Tensor)
            } else if len < row * rows {
                Err(Skip::Rows)
            } else {
                Ok(Measured { cols: (x_len as int / (4 * s.k)) as usize, rows: rows as usize })
            })
        }),
{
    let width: usize = 4 * s.k;
    if x_len % width != 0 {
        return Err(Skip::Columns);
    }
    if ty != s.ty || dims.len() < 2 || dims[0] != s.k as u64 {
        return Err(Skip::Tensor);
    }
    let rows: usize = if dims[1] <= s.rows_cap as u64 {
        dims[1] as usize
    } else {
        s.rows_cap
    };
    assert(row * rows <= 0xffff_ffff_ffff_ffff * 0xffff_ffff_ffff_ffff) by (nonlinear_arith)
        requires
            row <= 0xffff_ffff_ffff_ffff,
            rows <= 0xffff_ffff_ffff_ffff,
    ;
    if (len as u128) < row as u128 * rows as u128 {
        return Err(Skip::Rows);
    }
    Ok(Measured { cols: x_len / width, rows })
}

/// The weight bytes a measured site reads: the first rows of the tensor.
pub fn weight_rows(bytes: &[u8], row: usize, rows: usize) -> (r: Vec<u8>)
    requires
        row * rows <= bytes@.len(),
    ensures
        r@ == bytes@.take(row * rows),
{
    let len: usize = bytes.len();
    assert(row * rows <= len);
    let n: usize = row * rows;
    let mut out: Vec<u8> = Vec::new();
    let mut i: usize = 0;
    while i < n
        invariant
            i <= n <= bytes@.len(),
            out@ =~= bytes@.take(i as int),
        decreases n - i,
    {
        out.push(bytes[i]);
        i += 1;
    }
    out
}

// ------------------------------------------------------------ columns

/// An integer in the total order of the singles: the negative ones below, from
/// the largest magnitude up, and the NaNs outermost on either side.
pub open spec fn total_key(x: u32) -> int {
    if x >= 0x8000_0000 {
        0x7fff_ffff - x
    } else {
        x as int
    }
}

/// Whether the column at `w` is the last of the largest.
pub open spec fn is_worst(cols: Seq<u32>, w: int) -> bool {
    &&& 0 <= w < cols.len()
    &&& forall|i: int| 0 <= i <= w ==> total_key(#[trigger] cols[i]) <= total_key(cols[w])
    &&& forall|i: int| w < i < cols.len() ==> total_key(#[trigger] cols[i]) < total_key(cols[w])
}

/// The column of the largest error, the last where several are equally large,
/// and 0 where there is none.
pub fn worst(cols: &[u32]) -> (r: usize)
    ensures
        cols@.len() == 0 ==> r == 0,
        cols@.len() > 0 ==> is_worst(cols@, r as int),
{
    let n: usize = cols.len();
    if n == 0 {
        return 0;
    }
    let mut w: usize = 0;
    let mut i: usize = 1;
    while i < n
        invariant
            w < i <= n == cols@.len(),
            is_worst(cols@.take(i as int), w as int),
        decreases n - i,
    {
        let a: i64 = if cols[w] >= 0x8000_0000 {
            0x7fff_ffff - cols[w] as i64
        } else {
            cols[w] as i64
        };
        let b: i64 = if cols[i] >= 0x8000_0000 {
            0x7fff_ffff - cols[i] as i64
        } else {
            cols[i] as i64
        };
        let ghost was = cols@.take(i as int);
        let ghost now = cols@.take(i + 1);
        assert(forall|j: int| 0 <= j < i ==> #[trigger] now[j] == was[j]);
        assert(now[i as int] == cols@[i as int]);
        if b >= a {
            w = i;
        }
        i += 1;
    }
    assert(cols@.take(n as int) =~= cols@);
    w
}

/// The largest of the first `n` errors, from zero up and past what is not a
/// number.
pub open spec fn largest(cols: Seq<u32>, n: int) -> u32
    decreases n,
{
    if n <= 0 {
        0
    } else if bits::less(largest(cols, n - 1), cols[n - 1]) {
        cols[n - 1]
    } else {
        largest(cols, n - 1)
    }
}

/// The floor of a site: the largest error over its columns.
pub fn floor(cols: &[u32]) -> (r: u32)
    ensures
        r == largest(cols@, cols@.len() as int),
{
    let mut r: u32 = 0;
    let mut i: usize = 0;
    while i < cols.len()
        invariant
            i <= cols@.len(),
            r == largest(cols@, i as int),
        decreases cols@.len() - i,
    {
        if bits::is_less(r, cols[i]) {
            r = cols[i];
        }
        i += 1;
    }
    r
}

/// No column is above the floor: none of the errors compares greater.
pub proof fn law_the_floor_bounds_the_columns(cols: Seq<u32>, n: int, i: int)
    requires
        0 <= i < n <= cols.len(),
    ensures
        !bits::less(largest(cols, n), cols[i]),
        !bits::nan(largest(cols, n)),
    decreases n,
{
    lemma_largest_is_a_number(cols, n - 1);
    if i < n - 1 {
        law_the_floor_bounds_the_columns(cols, n - 1, i);
    }
}

/// The largest error is a number.
proof fn lemma_largest_is_a_number(cols: Seq<u32>, n: int)
    requires
        n <= cols.len(),
    ensures
        !bits::nan(largest(cols, n)),
    decreases n,
{
    if n > 0 {
        lemma_largest_is_a_number(cols, n - 1);
    } else {
        assert(!bits::nan(0u32));
    }
}

/// The total order of single patterns: a smaller value comes first, a negative zero
/// before a zero, a NaN outside the infinity of its sign, and no two patterns are
/// level.
pub proof fn law_patterns_stand_in_total_order(a: u32, b: u32)
    ensures
        bits::less(a, b) ==> total_key(a) < total_key(b),
        total_key(a) == total_key(b) ==> a == b,
        a >= 0x8000_0000 && b < 0x8000_0000 ==> total_key(a) < total_key(b),
        a < b < 0x8000_0000 ==> total_key(a) < total_key(b),
        0x8000_0000 <= a < b ==> total_key(b) < total_key(a),
        -0x8000_0000 <= total_key(a) < 0x8000_0000,
{
}

/// The floor is a column's value or zero, and the rows measured are no more than
/// the tensor has and no more than the cap.
pub proof fn law_the_floor_is_a_columns(cols: Seq<u32>, n: int)
    requires
        0 <= n <= cols.len(),
    ensures
        largest(cols, n) == 0 || exists|k: int| 0 <= k < n && #[trigger] cols[k] == largest(cols, n),
        !bits::less(largest(cols, n), 0),
    decreases n,
{
    if n > 0 {
        law_the_floor_is_a_columns(cols, n - 1);
        let before = largest(cols, n - 1);
        if bits::less(before, cols[n - 1]) {
            assert(cols[n - 1] == largest(cols, n));
        } else if before != 0 {
            let k = choose|k: int| 0 <= k < n - 1 && #[trigger] cols[k] == before;
            assert(cols[k] == largest(cols, n));
        }
    }
}

/// The rows measured are the tensor's, up to the cap.
pub proof fn law_the_rows_are_capped(dim: u64, cap: usize)
    ensures
        rows_of(dim, cap) <= dim,
        rows_of(dim, cap) <= cap,
        rows_of(dim, cap) == dim || rows_of(dim, cap) == cap,
{
}

/// The worst column is the last of those that none is above.
pub proof fn law_the_worst_column_is_the_last_highest(cols: Seq<u32>, w: int, i: int)
    requires
        is_worst(cols, w),
        0 <= i < cols.len(),
    ensures
        0 <= w < cols.len(),
        !bits::less(cols[w], cols[i]),
        cols[i] == cols[w] ==> i <= w,
{
    if bits::less(cols[w], cols[i]) {
        law_patterns_stand_in_total_order(cols[w], cols[i]);
    }
}

/// A site's columns are whole blocks of its weight's type, and its two files are
/// named by the layer: no two layers share one.
pub proof fn law_a_sites_files_are_its_layers(i: int, a: nat, b: nat)
    requires
        0 <= i < 6,
        a != b,
    ensures
        layer_row(i).k % layer_row(i).block == 0,
        layer_row(i).block == 32 <==> layer_row(i).ty == GgmlType::Q5_0,
        layer_row(i).block == 32 || layer_row(i).block == 128,
        x_file_of(layer_row(i).stem, a) != x_file_of(layer_row(i).stem, b),
        weight_of(layer_row(i).infix, a) != weight_of(layer_row(i).infix, b),
        x_file_of(layer_row(i).stem, a).len() == layer_row(i).stem.len() + decimal(a).len() + 7,
{
    let (s, w) = (layer_row(i).stem, layer_row(i).infix);
    reveal_strlit("-");
    reveal_strlit(".0.f32");
    reveal_strlit("blk.");
    reveal_strlit(".");
    reveal_strlit(".weight");
    text::law_number_reads_decimal(a, a + b);
    text::law_number_reads_decimal(b, a + b);
    let (x, y) = (x_file_of(s, a), x_file_of(s, b));
    if x == y {
        let n = s.len() as int + 1;
        assert(decimal(a) =~= x.subrange(n, x.len() - 6));
        assert(decimal(b) =~= y.subrange(n, y.len() - 6));
    }
    let (v, z) = (weight_of(w, a), weight_of(w, b));
    if v == z {
        let m = 8 + w.len() as int;
        assert(decimal(a) =~= v.subrange(4, v.len() - m));
        assert(decimal(b) =~= z.subrange(4, z.len() - m));
    }
}

/// The sites are six of layer 1, the same six of layer 13, and the head's.
pub proof fn law_the_sites_are_two_layers_and_the_head(s: &Site, i: int)
    requires
        stands_at(s, i),
        0 <= i < 13,
    ensures
        i < 6 ==> s.layer == Some(1u32) && s.is_of(layer_row(i), 1),
        6 <= i < 12 ==> s.layer == Some(13u32) && s.is_of(layer_row(i - 6), 13),
        i == 12 ==> s.layer is None && s.name@ == "lm_head"@ && s.tensor@ == "output.weight"@ && s.x_file@
            == "result_norm.0.f32"@ && s.ty == GgmlType::Q6_K && s.rows_cap == 4096,
        s.block == 128 || s.block == 32,
        i < 12 ==> s.rows_cap == 2048,
        s.k as int % s.block as int == 0,
{
}

} // verus!
