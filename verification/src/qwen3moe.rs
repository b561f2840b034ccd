//! What the qwen3moe kernel gates share: the oracle sets they walk, the reader
//! for the f16 cache views, one layer's attention rows, and a Q4_K row's scale
//! and min codes, which the expert gates' rounding bounds are taken on.
use crate::bits;
use crate::bits::widened;
use crate::block::layered;
use crate::files;
use crate::files::int_read;
use crate::files::is_plain;
use crate::files::is_widened;
use crate::files::logical_read;
use crate::files::not_half;
use crate::files::row_count;
use crate::files::row_not_half;
use crate::files::rows_good;
use crate::files::singles;
use crate::files::widens_to;
use crate::files::first_rows;
use crate::files::four_fit;
use crate::files::FileError;
use crate::index::first_key;
use crate::index::keys;
use crate::index::RowKey;
use crate::manifest::opt_chars;
use crate::manifest::product;
use crate::manifest::product_fits;
use crate::manifest::IntRow;
use crate::manifest::RefRow;
use crate::naming::Layout;
use crate::naming::RowKind;
use crate::oracle;
use crate::set::RefManifest;
use crate::text;
use crate::text::decimal;
use vstd::prelude::*;

verus! {

/// Values per head, the NEOX turn's width.
pub const HEAD: u64 = 128;

/// Every qwen3moe oracle set by name: the 5-token prefill first, then the
/// decode steps by depth.
pub fn sets() -> (r: Vec<&'static str>)
    ensures
        oracle::names(r@) == seq![oracle::cpu_set_of(oracle::Arch::Qwen3moe)]
            + oracle::step_sets_of(oracle::Arch::Qwen3moe),
{
    let o: oracle::Oracle = oracle::for_arch(oracle::Arch::Qwen3moe);
    let mut r: Vec<&'static str> = vec![o.cpu_set];
    let mut i: usize = 0;
    while i < o.step_sets.len()
        invariant
            i <= o.step_sets@.len(),
            oracle::names(r@) =~= seq![o.cpu_set@] + oracle::names(o.step_sets@).take(i as int),
        decreases o.step_sets@.len() - i,
    {
        let ghost held = oracle::names(r@);
        let name: &'static str = o.step_sets[i];
        r.push(name);
        assert(oracle::names(r@) =~= held.push(name@));
        assert(oracle::names(o.step_sets@)[i as int] == name@);
        i += 1;
    }
    assert(oracle::names(o.step_sets@).take(o.step_sets@.len() as int) =~= oracle::names(
        o.step_sets@,
    ));
    r
}

/// The decode-step sets alone, by depth.
pub fn step_sets() -> (r: Vec<&'static str>)
    ensures
        oracle::names(r@) == oracle::step_sets_of(oracle::Arch::Qwen3moe),
{
    oracle::for_arch(oracle::Arch::Qwen3moe).step_sets
}

// ------------------------------------------------------------ Q4_K rows

/// Bytes of a Q4_K block.
pub const Q4K_BYTES: usize = 144;

/// Values of a Q4_K block.
pub const Q4K_VALUES: usize = 256;

/// One value of a Q4_K row, as codes: the value is `d·scale·q − dmin·min`,
/// `d` and `dmin` halves by their bits.
#[derive(Clone, Copy, Debug, PartialEq, Eq, Structural)]
pub struct Q4kTerm {
    pub d: u16,
    pub dmin: u16,
    pub scale: u8,
    pub min: u8,
    pub q: u8,
}

/// The six-bit scale of sub-block `j`, `b` the block's bytes: the first four
/// stand in the low bits of a byte each, the last four are split over two.
pub open spec fn scale_of(b: Seq<u8>, j: int) -> int {
    if j < 4 {
        b[4 + j] as int % 64
    } else {
        b[8 + j] as int % 16 + 16 * (b[j] as int / 64)
    }
}

/// The six-bit min of sub-block `j`.
pub open spec fn min_of(b: Seq<u8>, j: int) -> int {
    if j < 4 {
        b[8 + j] as int % 64
    } else {
        b[8 + j] as int / 16 + 16 * (b[4 + j] as int / 64)
    }
}

/// Value `i` of a block: 64 values share 32 bytes, the first 32 of them the
/// low nibbles.
pub open spec fn block_term(b: Seq<u8>, i: int) -> Q4kTerm {
    let byte = b[16 + 32 * (i / 64) + i % 32] as int;
    Q4kTerm {
        d: (b[0] + 256 * b[1]) as u16,
        dmin: (b[2] + 256 * b[3]) as u16,
        scale: scale_of(b, i / 32) as u8,
        min: min_of(b, i / 32) as u8,
        q: (if (i / 32) % 2 == 0 {
            byte % 16
        } else {
            byte / 16
        }) as u8,
    }
}

/// Block `k` of a row.
pub open spec fn q4k_block(row: Seq<u8>, k: int) -> Seq<u8> {
    row.subrange(144 * k, 144 * k + 144)
}

/// Value `i` of a row.
pub open spec fn row_term(row: Seq<u8>, i: int) -> Q4kTerm {
    block_term(q4k_block(row, i / 256), i % 256)
}

/// Value `i` of the block that starts at `at`.
fn term_at(row: &[u8], at: usize, i: usize) -> (r: Q4kTerm)
    requires
        i < 256,
        at + 144 <= row@.len(),
    ensures
        r == block_term(row@.subrange(at as int, at + 144), i as int),
{
    let ghost b = row@.subrange(at as int, at + 144);
    proof {
        assert forall|k: int| 0 <= k < 144 implies #[trigger] b[k] == row@[at + k] by {}
    }
    let len: usize = row.len();
    assert(at + 144 <= len);
    let j: usize = i / 32;
    let byte: u8 = row[at + (16 + 32 * (i / 64) + i % 32)];
    assert(byte == b[16 + 32 * (i as int / 64) + i as int % 32]);
    let scale: u8;
    let min: u8;
    if j < 4 {
        scale = row[at + (4 + j)] % 64;
        min = row[at + (8 + j)] % 64;
    } else {
        scale = row[at + (8 + j)] % 16 + 16 * (row[at + j] / 64);
        min = row[at + (8 + j)] / 16 + 16 * (row[at + (4 + j)] / 64);
    }
    Q4kTerm {
        d: row[at] as u16 + 256 * row[at + 1] as u16,
        dmin: row[at + 2] as u16 + 256 * row[at + 3] as u16,
        scale,
        min,
        q: if j % 2 == 0 {
            byte % 16
        } else {
            byte / 16
        },
    }
}

/// A Q4_K row's values as codes, `w = d1·q − m1` with `d1 = d·scale` and
/// `m1 = dmin·min`. Bytes past the last whole block are not read.
pub fn q4k_parts(row: &[u8]) -> (r: Vec<Q4kTerm>)
    ensures
        r@.len() == 256 * (row@.len() / 144),
        forall|i: int| 0 <= i < r@.len() ==> #[trigger] r@[i] == row_term(row@, i),
{
    let len: usize = row.len();
    let n: usize = len / Q4K_BYTES;
    let mut out: Vec<Q4kTerm> = Vec::new();
    let mut k: usize = 0;
    while k < n
        invariant
            k <= n,
            n == row@.len() / 144,
            row@.len() == len,
            out@.len() == 256 * k,
            forall|i: int| 0 <= i < out@.len() ==> #[trigger] out@[i] == row_term(row@, i),
        decreases n - k,
    {
        let at: usize = Q4K_BYTES * k;
        let mut i: usize = 0;
        while i < Q4K_VALUES
            invariant
                i <= 256,
                k < n,
                n == row@.len() / 144,
                at == 144 * k,
                at + 144 <= row@.len(),
                out@.len() == 256 * k + i,
                forall|x: int| 0 <= x < out@.len() ==> #[trigger] out@[x] == row_term(row@, x),
            decreases 256 - i,
        {
            let t: Q4kTerm = term_at(row, at, i);
            proof {
                let x = 256 * k + i;
                assert(x / 256 == k && x % 256 == i);
                assert(q4k_block(row@, k as int) =~= row@.subrange(at as int, at + 144));
            }
            out.push(t);
            i += 1;
        }
        k += 1;
    }
    out
}

/// Every code of a Q4_K row fits its field: six bits of scale and min, four of
/// the value.
pub proof fn law_q4k_codes_fit(row: Seq<u8>, i: int)
    requires
        0 <= i < 256 * (row.len() / 144),
    ensures
        row_term(row, i).scale < 64,
        row_term(row, i).min < 64,
        row_term(row, i).q < 16,
{
}

// ------------------------------------------------------------ f16 views

/// What the read of an f16 row in its logical order gives.
pub open spec fn f16_reads(row: RefRow, raw: Seq<u8>, r: Result<Seq<u16>, FileError>) -> bool {
    if row.ty@ != "f16"@ {
        r == Err::<Seq<u16>, FileError>(FileError::Type)
    } else if row.logical != Some(1u8) {
        plain_f16_reads(row, raw, r)
    } else if !four_fit(row.ne@) {
        r == Err::<Seq<u16>, FileError>(FileError::Overflow)
    } else if raw.len() != 4 * product(row.ne@) {
        r == Err::<Seq<u16>, FileError>(FileError::FileBytes)
    } else {
        match r {
            Ok(out) => out.len() == singles(raw).len() && forall|i: int|
                0 <= i < out.len() ==> widened(#[trigger] out[i]) == singles(raw)[i],
            Err(FileError::NotWidened(i)) => {
                &&& i < singles(raw).len()
                &&& not_half(singles(raw)[i as int])
                &&& forall|k: int| 0 <= k < i ==> !not_half(#[trigger] singles(raw)[k])
            },
            Err(_) => false,
        }
    }
}

/// What the read of an f16 row from its plain file gives.
pub open spec fn plain_f16_reads(row: RefRow, raw: Seq<u8>, r: Result<Seq<u16>, FileError>) -> bool {
    match r {
        Ok(out) => {
            &&& is_widened(row)
            &&& is_plain(row)
            &&& raw.len() == row.bytes
            &&& row_count(row.ne@) <= u32::MAX
            &&& widens_to(
                out,
                singles(raw),
                row.ne@[0] as int,
                first_rows(row_count(row.ne@)),
            )
        },
        Err(FileError::Overflow) => !product_fits(row.ne@),
        Err(FileError::Rows) => product_fits(row.ne@) && row_count(row.ne@) > u32::MAX,
        Err(FileError::Type) => {
            &&& product_fits(row.ne@) && row_count(row.ne@) <= u32::MAX
            &&& !is_widened(row)
        },
        Err(FileError::NotPlain) => {
            &&& is_widened(row) && row_count(row.ne@) <= u32::MAX
            &&& !is_plain(row)
        },
        Err(FileError::FileBytes) => {
            &&& is_widened(row) && row_count(row.ne@) <= u32::MAX
            &&& is_plain(row)
            &&& raw.len() != row.bytes
        },
        Err(FileError::NotHalf(p)) => {
            &&& row_count(row.ne@) <= u32::MAX
            &&& is_widened(row)
            &&& is_plain(row) && raw.len() == row.bytes
            &&& p < row_count(row.ne@)
            &&& row_not_half(singles(raw), p, row.ne@[0] as int)
            &&& rows_good(row, raw, first_rows(row_count(row.ne@)), p as int)
        },
        Err(_) => false,
    }
}

/// A read with its values by their view.
pub open spec fn halves(r: Result<Vec<u16>, FileError>) -> Result<Seq<u16>, FileError> {
    match r {
        Ok(v) => Ok(v@),
        Err(e) => Err(e),
    }
}

/// The f16 bits of an f16 row in its logical order, `raw` the logical twin's
/// bytes for a row that has one (each value a widened half, refused unless a
/// half widens to it), else the plain file's ([`files::widened_f16_rows`]).
pub fn f16_logical_bits(row: &RefRow, raw: &[u8]) -> (r: Result<Vec<u16>, FileError>)
    ensures
        f16_reads(*row, raw@, halves(r)),
{
    if !text::same_str(row.ty.as_str(), "f16") {
        return Err(FileError::Type);
    }
    let twin: bool = match row.logical {
        Some(l) => l == 1,
        None => false,
    };
    if !twin {
        return files::widened_f16_rows(row, raw);
    }
    let want: Option<u64> = match row.checked_count() {
        Some(n) => n.checked_mul(4),
        None => None,
    };
    match want {
        None => {
            return Err(FileError::Overflow);
        },
        Some(n) => {
            if raw.len() as u64 != n {
                return Err(FileError::FileBytes);
            }
        },
    }
    let v: Vec<u32> = crate::gate::bytes_to_words(raw);
    assert(v@ =~= singles(raw@));
    let mut out: Vec<u16> = Vec::new();
    let mut i: usize = 0;
    while i < v.len()
        invariant
            i <= v@.len(),
            i == out@.len(),
            v@ == singles(raw@),
            forall|k: int| 0 <= k < i ==> widened(#[trigger] out@[k]) == v@[k],
            forall|k: int| 0 <= k < i ==> !not_half(#[trigger] v@[k]),
            row.ty@ == "f16"@,
            row.logical == Some(1u8),
            four_fit(row.ne@),
            raw@.len() == 4 * product(row.ne@),
        decreases v@.len() - i,
    {
        match bits::narrowed(v[i]) {
            Some(h) => {
                assert(widened(h) == v@[i as int]);
                out.push(h);
            },
            None => {
                return Err(FileError::NotWidened(i));
            },
        }
        i += 1;
    }
    Ok(out)
}

// ------------------------------------------------------------ attention rows

/// The rows of a layer's attention.
#[derive(Clone, Copy, Debug, PartialEq, Eq, Structural)]
pub enum Part {
    /// What the query norm reads.
    Q,
    /// What the key norm reads.
    K,
    /// The values.
    V,
    /// The normed queries.
    QNormed,
    /// The normed keys.
    KNormed,
    /// The turned queries.
    QRoped,
    /// The turned keys.
    KRoped,
    /// The key cache's write.
    KCache,
    /// The value cache's write.
    VCache,
}

/// Where a layer's attention rows stand: positions in the manifest's tensor
/// rows, and of the token positions in its int rows.
#[derive(Clone, Copy, Debug, PartialEq, Eq, Structural)]
pub struct AttnPlan {
    pub q: usize,
    pub k: usize,
    pub v: usize,
    pub q_normed: usize,
    pub k_normed: usize,
    pub q_roped: usize,
    pub k_roped: usize,
    pub k_cache: usize,
    pub v_cache: usize,
    pub pos: usize,
}

/// Why a layer has no plan.
#[derive(Clone, Copy, Debug, PartialEq, Eq, Structural)]
pub enum PlanError {
    /// The set lacks this row.
    NoRow(Part),
    /// The normed rows are not heads of [`HEAD`] values over the same tokens.
    Shape,
    /// The turned queries name no positions.
    NoPositions,
    /// The set holds no integers of the positions.
    NoPositionRow,
    /// This norm names no source.
    NoSource(Part),
    /// This norm has no gain column.
    NoGain(Part),
}

/// The name of a part's row at a layer.
pub open spec fn part_name(p: Part, layer: usize) -> Seq<char> {
    match p {
        Part::QNormed => layered("Qcur_normed"@, layer),
        Part::KNormed => layered("Kcur_normed"@, layer),
        Part::QRoped => layered("Qcur_roped"@, layer),
        Part::KRoped => layered("Kcur_roped"@, layer),
        Part::V => layered("Vcur"@, layer),
        Part::KCache => "cache_k_l"@ + decimal(layer as nat) + " (view) (copy of Kcur_roped-"@
            + decimal(layer as nat) + ")"@,
        Part::VCache => "v_cache_view-"@ + decimal(layer as nat) + " (copy of Vcur-"@ + decimal(
            layer as nat,
        ) + ")"@,
        _ => seq![],
    }
}

/// The name of a part's row at a layer.
fn name_of(p: Part, layer: usize) -> (r: String)
    ensures
        r@ == part_name(p, layer),
{
    let mut out: Vec<char> = Vec::new();
    match p {
        Part::QNormed => {
            text::push_str(&mut out, "Qcur_normed");
            out.push('-');
            text::push_decimal(&mut out, layer as u64);
        },
        Part::KNormed => {
            text::push_str(&mut out, "Kcur_normed");
            out.push('-');
            text::push_decimal(&mut out, layer as u64);
        },
        Part::QRoped => {
            text::push_str(&mut out, "Qcur_roped");
            out.push('-');
            text::push_decimal(&mut out, layer as u64);
        },
        Part::KRoped => {
            text::push_str(&mut out, "Kcur_roped");
            out.push('-');
            text::push_decimal(&mut out, layer as u64);
        },
        Part::V => {
            text::push_str(&mut out, "Vcur");
            out.push('-');
            text::push_decimal(&mut out, layer as u64);
        },
        Part::KCache => {
            text::push_str(&mut out, "cache_k_l");
            text::push_decimal(&mut out, layer as u64);
            text::push_str(&mut out, " (view) (copy of Kcur_roped-");
            text::push_decimal(&mut out, layer as u64);
            text::push_str(&mut out, ")");
        },
        Part::VCache => {
            text::push_str(&mut out, "v_cache_view-");
            text::push_decimal(&mut out, layer as u64);
            text::push_str(&mut out, " (copy of Vcur-");
            text::push_decimal(&mut out, layer as u64);
            text::push_str(&mut out, ")");
        },
        _ => {},
    }
    assert(out@ =~= part_name(p, layer));
    text::string_of(out.as_slice())
}

/// Where the set holds a part's row.
pub open spec fn part_at(man: RefManifest, p: Part, layer: usize) -> Option<int> {
    man.finds(RowKind::Tensor, part_name(p, layer), 0)
}

/// Where the set holds a part's row.
fn find_part(man: &RefManifest, p: Part, layer: usize) -> (r: Result<usize, PlanError>)
    requires
        man.wf(),
    ensures
        match r {
            Ok(i) => i < man.tensors@.len() && part_at(*man, p, layer) == Some(i as int),
            Err(e) => part_at(*man, p, layer) is None && e == PlanError::NoRow(p),
        },
{
    match man.position(RowKind::Tensor, name_of(p, layer).as_str(), 0) {
        Some(i) => Ok(i),
        None => Err(PlanError::NoRow(p)),
    }
}

/// Where the set holds the row a norm reads.
pub open spec fn source_at(man: RefManifest, norm: int) -> Option<int> {
    match opt_chars(man.tensors@[norm].src0) {
        Some(name) => man.finds(RowKind::Tensor, name, 0),
        None => None,
    }
}

/// Where the set holds the positions' integers.
pub open spec fn positions_at(man: RefManifest, roped: int) -> Option<int> {
    match opt_chars(man.tensors@[roped].src1) {
        Some(name) => first_key(
            keys(man.ints@),
            RowKey { name, occurrence: 0, of: RowKind::Input, layout: Layout::Flat },
            0,
        ),
        None => None,
    }
}

/// The first of six parts the set lacks.
pub open spec fn lacking(man: RefManifest, layer: usize) -> Option<Part> {
    if part_at(man, Part::KNormed, layer) is None {
        Some(Part::KNormed)
    } else if part_at(man, Part::QRoped, layer) is None {
        Some(Part::QRoped)
    } else if part_at(man, Part::KRoped, layer) is None {
        Some(Part::KRoped)
    } else if part_at(man, Part::V, layer) is None {
        Some(Part::V)
    } else if part_at(man, Part::KCache, layer) is None {
        Some(Part::KCache)
    } else if part_at(man, Part::VCache, layer) is None {
        Some(Part::VCache)
    } else {
        None
    }
}

/// The plan of a layer, `None` when the set holds no `Qcur_normed-L`.
pub open spec fn planned(man: RefManifest, layer: usize) -> Result<Option<AttnPlan>, PlanError> {
    if part_at(man, Part::QNormed, layer) is None {
        Ok(None)
    } else if lacking(man, layer) is Some {
        Err(PlanError::NoRow(lacking(man, layer)->0))
    } else {
        let qn = part_at(man, Part::QNormed, layer)->0;
        let kn = part_at(man, Part::KNormed, layer)->0;
        let qr = part_at(man, Part::QRoped, layer)->0;
        let q = man.tensors@[qn];
        let k = man.tensors@[kn];
        if q.ne@[0] != HEAD || k.ne@[0] != HEAD || k.ne@[2] != q.ne@[2] {
            Err(PlanError::Shape)
        } else if man.tensors@[qr].src1 is None {
            Err(PlanError::NoPositions)
        } else if positions_at(man, qr) is None {
            Err(PlanError::NoPositionRow)
        } else if q.src0 is None {
            Err(PlanError::NoSource(Part::QNormed))
        } else if source_at(man, qn) is None {
            Err(PlanError::NoRow(Part::Q))
        } else if k.src0 is None {
            Err(PlanError::NoSource(Part::KNormed))
        } else if source_at(man, kn) is None {
            Err(PlanError::NoRow(Part::K))
        } else if q.src1 is None {
            Err(PlanError::NoGain(Part::QNormed))
        } else if k.src1 is None {
            Err(PlanError::NoGain(Part::KNormed))
        } else {
            Ok(
                Some(
                    AttnPlan {
                        q: source_at(man, qn)->0 as usize,
                        k: source_at(man, kn)->0 as usize,
                        v: part_at(man, Part::V, layer)->0 as usize,
                        q_normed: qn as usize,
                        k_normed: kn as usize,
                        q_roped: qr as usize,
                        k_roped: part_at(man, Part::KRoped, layer)->0 as usize,
                        k_cache: part_at(man, Part::KCache, layer)->0 as usize,
                        v_cache: part_at(man, Part::VCache, layer)->0 as usize,
                        pos: positions_at(man, qr)->0 as usize,
                    },
                ),
            )
        }
    }
}

impl AttnPlan {
    /// The plan's rows are the manifest's.
    pub open spec fn within(self, man: RefManifest) -> bool {
        &&& self.q < man.tensors@.len()
        &&& self.k < man.tensors@.len()
        &&& self.v < man.tensors@.len()
        &&& self.q_normed < man.tensors@.len()
        &&& self.k_normed < man.tensors@.len()
        &&& self.q_roped < man.tensors@.len()
        &&& self.k_roped < man.tensors@.len()
        &&& self.k_cache < man.tensors@.len()
        &&& self.v_cache < man.tensors@.len()
        &&& self.pos < man.ints@.len()
    }
}

/// Where the set holds the row a norm reads.
fn find_source(man: &RefManifest, norm: usize, p: Part, of: Part) -> (r: Result<usize, PlanError>)
    requires
        man.wf(),
        norm < man.tensors@.len(),
    ensures
        match r {
            Ok(i) => i < man.tensors@.len() && source_at(*man, norm as int) == Some(i as int)
                && man.tensors@[norm as int].src0 is Some,
            Err(e) => source_at(*man, norm as int) is None && e == (
            if man.tensors@[norm as int].src0 is None {
                PlanError::NoSource(p)
            } else {
                PlanError::NoRow(of)
            }),
        },
{
    match &man.tensors[norm].src0 {
        None => Err(PlanError::NoSource(p)),
        Some(name) => match man.position(RowKind::Tensor, name.as_str(), 0) {
            Some(i) => Ok(i),
            None => Err(PlanError::NoRow(of)),
        },
    }
}

/// One layer's attention rows of a set: `Qcur-L (reshaped)`,
/// `Kcur-L (reshaped)` and `Vcur-L` in, `Qcur_normed-L`/`Kcur_normed-L` (gain
/// in `src1`), `Qcur_roped-L`/`Kcur_roped-L` (positions in `src1`) and the two
/// cache writes; `None` when the set holds no `Qcur_normed-L`.
pub fn attn_plan(man: &RefManifest, layer: usize) -> (r: Result<Option<AttnPlan>, PlanError>)
    requires
        man.wf(),
    ensures
        r == planned(*man, layer),
        r matches Ok(Some(p)) ==> p.within(*man),
{
    let qn: usize = match find_part(man, Part::QNormed, layer) {
        Ok(i) => i,
        Err(_) => {
            return Ok(None);
        },
    };
    let kn: usize = find_part(man, Part::KNormed, layer)?;
    let qr: usize = find_part(man, Part::QRoped, layer)?;
    let kr: usize = find_part(man, Part::KRoped, layer)?;
    let v: usize = find_part(man, Part::V, layer)?;
    let kw: usize = find_part(man, Part::KCache, layer)?;
    let vw: usize = find_part(man, Part::VCache, layer)?;
    let q_row: &RefRow = &man.tensors[qn];
    let k_row: &RefRow = &man.tensors[kn];
    if q_row.ne[0] != HEAD || k_row.ne[0] != HEAD || k_row.ne[2] != q_row.ne[2] {
        return Err(PlanError::Shape);
    }
    let pos: usize = match &man.tensors[qr].src1 {
        None => {
            return Err(PlanError::NoPositions);
        },
        Some(name) => match man.int_position(
            name.as_str(),
            0,
            RowKind::Input,
            Layout::Flat,
        ) {
            None => {
                return Err(PlanError::NoPositionRow);
            },
            Some(i) => i,
        },
    };
    let q: usize = find_source(man, qn, Part::QNormed, Part::Q)?;
    let k: usize = find_source(man, kn, Part::KNormed, Part::K)?;
    if q_row.src1.is_none() {
        return Err(PlanError::NoGain(Part::QNormed));
    }
    if k_row.src1.is_none() {
        return Err(PlanError::NoGain(Part::KNormed));
    }
    Ok(
        Some(
            AttnPlan {
                q,
                k,
                v,
                q_normed: qn,
                k_normed: kn,
                q_roped: qr,
                k_roped: kr,
                k_cache: kw,
                v_cache: vw,
                pos,
            },
        ),
    )
}

/// The files of a layer's attention rows: of each row the one its logical read
/// takes, and of the positions their integers.
#[derive(Clone, Copy, Debug)]
pub struct AttnFiles<'a> {
    pub pos: &'a [u8],
    pub q: &'a [u8],
    pub k: &'a [u8],
    pub v: &'a [u8],
    pub q_normed: &'a [u8],
    pub k_normed: &'a [u8],
    pub q_roped: &'a [u8],
    pub k_roped: &'a [u8],
    pub k_cache: &'a [u8],
    pub v_cache: &'a [u8],
}

/// One layer's attention inputs and the rows around the norm, the turn and the
/// append, token after token; the cache writes as f16 bits.
#[derive(Clone, Debug)]
pub struct AttnRows {
    pub m: u64,
    pub n_head: u64,
    pub n_kv: u64,
    pub pos: Vec<u32>,
    pub q: Vec<u32>,
    pub k: Vec<u32>,
    pub v: Vec<u32>,
    pub q_normed: Vec<u32>,
    pub k_normed: Vec<u32>,
    pub q_roped: Vec<u32>,
    pub k_roped: Vec<u32>,
    pub k_rows: Vec<u16>,
    pub v_rows: Vec<u16>,
}

/// Why a layer's rows do not read.
#[derive(Clone, Copy, Debug, PartialEq, Eq, Structural)]
pub enum AttnError {
    /// The positions' file is not what its row says.
    Positions(FileError),
    /// The value at this index is no position.
    Position(usize),
    /// The positions are not one per token.
    PositionCount,
    /// A part's file is not what its row says.
    File(Part, FileError),
}

/// The first value from `at` on that is no 32-bit position.
pub open spec fn first_bad_position(v: Seq<i64>, at: int) -> Option<int>
    decreases v.len() - at,
{
    if at < 0 || at >= v.len() {
        None
    } else if !(0 <= v[at] <= u32::MAX) {
        Some(at)
    } else {
        first_bad_position(v, at + 1)
    }
}

/// What is wrong with the positions, if anything.
pub open spec fn positions_fault(row: IntRow, raw: Seq<u8>, m: u64) -> Option<AttnError> {
    match int_read(row, raw) {
        Err(e) => Some(AttnError::Positions(e)),
        Ok(v) => match first_bad_position(v, 0) {
            Some(i) => Some(AttnError::Position(i as usize)),
            None => if v.len() != m {
                Some(AttnError::PositionCount)
            } else {
                None
            },
        },
    }
}

/// What is wrong with a part's file, if anything.
pub open spec fn part_fault(row: RefRow, raw: Seq<u8>, p: Part) -> Option<AttnError> {
    match logical_read(row, raw) {
        Err(e) => Some(AttnError::File(p, e)),
        Ok(_) => None,
    }
}

/// What is wrong with the files before the caches, first things first.
pub open spec fn attn_fault(man: RefManifest, p: AttnPlan, f: AttnFiles<'_>) -> Option<AttnError> {
    let t = man.tensors@;
    let pos = positions_fault(man.ints@[p.pos as int], f.pos@, t[p.q_normed as int].ne@[2]);
    let q = part_fault(t[p.q as int], f.q@, Part::Q);
    let k = part_fault(t[p.k as int], f.k@, Part::K);
    let v = part_fault(t[p.v as int], f.v@, Part::V);
    let qn = part_fault(t[p.q_normed as int], f.q_normed@, Part::QNormed);
    let kn = part_fault(t[p.k_normed as int], f.k_normed@, Part::KNormed);
    let qr = part_fault(t[p.q_roped as int], f.q_roped@, Part::QRoped);
    let kr = part_fault(t[p.k_roped as int], f.k_roped@, Part::KRoped);
    if pos is Some {
        pos
    } else if q is Some {
        q
    } else if k is Some {
        k
    } else if v is Some {
        v
    } else if qn is Some {
        qn
    } else if kn is Some {
        kn
    } else if qr is Some {
        qr
    } else {
        kr
    }
}

/// The rows hold what the files say.
pub open spec fn holds(
    rows: AttnRows,
    man: RefManifest,
    p: AttnPlan,
    f: AttnFiles<'_>,
) -> bool {
    let t = man.tensors@;
    &&& rows.m == t[p.q_normed as int].ne@[2]
    &&& rows.n_head == t[p.q_normed as int].ne@[1]
    &&& rows.n_kv == t[p.k_normed as int].ne@[1]
    &&& int_read(man.ints@[p.pos as int], f.pos@) matches Ok(v) && rows.pos@ == v.map_values(
        |x: i64| x as u32,
    )
    &&& logical_read(t[p.q as int], f.q@) == Ok::<Seq<u32>, FileError>(rows.q@)
    &&& logical_read(t[p.k as int], f.k@) == Ok::<Seq<u32>, FileError>(rows.k@)
    &&& logical_read(t[p.v as int], f.v@) == Ok::<Seq<u32>, FileError>(rows.v@)
    &&& logical_read(t[p.q_normed as int], f.q_normed@) == Ok::<Seq<u32>, FileError>(
        rows.q_normed@,
    )
    &&& logical_read(t[p.k_normed as int], f.k_normed@) == Ok::<Seq<u32>, FileError>(
        rows.k_normed@,
    )
    &&& logical_read(t[p.q_roped as int], f.q_roped@) == Ok::<Seq<u32>, FileError>(rows.q_roped@)
    &&& logical_read(t[p.k_roped as int], f.k_roped@) == Ok::<Seq<u32>, FileError>(rows.k_roped@)
    &&& f16_reads(t[p.k_cache as int], f.k_cache@, Ok(rows.k_rows@))
    &&& f16_reads(t[p.v_cache as int], f.v_cache@, Ok(rows.v_rows@))
}

/// Reads the positions of `m` tokens.
fn read_positions(row: &IntRow, raw: &[u8], m: u64) -> (r: Result<Vec<u32>, AttnError>)
    ensures
        match r {
            Ok(out) => positions_fault(*row, raw@, m) is None && (int_read(*row, raw@) matches Ok(
                v,
            ) && out@ == v.map_values(|x: i64| x as u32)),
            Err(e) => positions_fault(*row, raw@, m) == Some(e),
        },
{
    let v: Vec<i64> = match files::ref_ints_of(row, raw) {
        Ok(v) => v,
        Err(e) => {
            return Err(AttnError::Positions(e));
        },
    };
    let mut out: Vec<u32> = Vec::new();
    let mut i: usize = 0;
    while i < v.len()
        invariant
            i <= v@.len(),
            i == out@.len(),
            int_read(*row, raw@) == Ok::<Seq<i64>, FileError>(v@),
            first_bad_position(v@, 0) == first_bad_position(v@, i as int),
            forall|k: int| 0 <= k < i ==> #[trigger] out@[k] == v@[k] as u32,
        decreases v@.len() - i,
    {
        if v[i] < 0 || v[i] > u32::MAX as i64 {
            return Err(AttnError::Position(i));
        }
        out.push(v[i] as u32);
        i += 1;
    }
    assert(out@ =~= v@.map_values(|x: i64| x as u32));
    if out.len() as u64 != m {
        return Err(AttnError::PositionCount);
    }
    Ok(out)
}

/// Reads a part's file.
fn read_part(row: &RefRow, raw: &[u8], p: Part) -> (r: Result<Vec<u32>, AttnError>)
    ensures
        match r {
            Ok(v) => part_fault(*row, raw@, p) is None && logical_read(*row, raw@) == Ok::<
                Seq<u32>,
                FileError,
            >(v@),
            Err(e) => part_fault(*row, raw@, p) == Some(e),
        },
{
    match files::ref_tensor_logical(row, raw) {
        Ok(v) => Ok(v),
        Err(e) => Err(AttnError::File(p, e)),
    }
}

impl AttnRows {
    /// A layer's rows, read from its files by its plan.
    pub fn read(man: &RefManifest, p: &AttnPlan, f: &AttnFiles<'_>) -> (r: Result<
        AttnRows,
        AttnError,
    >)
        requires
            p.within(*man),
        ensures
            match r {
                Ok(rows) => attn_fault(*man, *p, *f) is None && holds(rows, *man, *p, *f),
                Err(AttnError::File(Part::KCache, e)) => attn_fault(*man, *p, *f) is None
                    && f16_reads(man.tensors@[p.k_cache as int], f.k_cache@, Err(e)),
                Err(AttnError::File(Part::VCache, e)) => attn_fault(*man, *p, *f) is None
                    && f16_reads(man.tensors@[p.v_cache as int], f.v_cache@, Err(e)) && exists|
                    k: Seq<u16>,
                |
                    f16_reads(man.tensors@[p.k_cache as int], f.k_cache@, Ok(k)),
                Err(e) => attn_fault(*man, *p, *f) == Some(e),
            },
    {
        let t: &Vec<RefRow> = &man.tensors;
        let m: u64 = t[p.q_normed].ne[2];
        let pos: Vec<u32> = read_positions(&man.ints[p.pos], f.pos, m)?;
        let q: Vec<u32> = read_part(&t[p.q], f.q, Part::Q)?;
        let k: Vec<u32> = read_part(&t[p.k], f.k, Part::K)?;
        let v: Vec<u32> = read_part(&t[p.v], f.v, Part::V)?;
        let q_normed: Vec<u32> = read_part(&t[p.q_normed], f.q_normed, Part::QNormed)?;
        let k_normed: Vec<u32> = read_part(&t[p.k_normed], f.k_normed, Part::KNormed)?;
        let q_roped: Vec<u32> = read_part(&t[p.q_roped], f.q_roped, Part::QRoped)?;
        let k_roped: Vec<u32> = read_part(&t[p.k_roped], f.k_roped, Part::KRoped)?;
        let k_rows: Vec<u16> = match f16_logical_bits(&t[p.k_cache], f.k_cache) {
            Ok(v) => v,
            Err(e) => {
                return Err(AttnError::File(Part::KCache, e));
            },
        };
        let v_rows: Vec<u16> = match f16_logical_bits(&t[p.v_cache], f.v_cache) {
            Ok(v) => v,
            Err(e) => {
                return Err(AttnError::File(Part::VCache, e));
            },
        };
        Ok(
            AttnRows {
                m,
                n_head: t[p.q_normed].ne[1],
                n_kv: t[p.k_normed].ne[1],
                pos,
                q,
                k,
                v,
                q_normed,
                k_normed,
                q_roped,
                k_roped,
                k_rows,
                v_rows,
            },
        )
    }
}

// ------------------------------------------------------------ Q4_K bytes

/// The codes of a block's 256 values give its 128 quant bytes back: the value
/// 32 further on in a group of 64 is the high nibble of the byte the first is the
/// low nibble of, and each group has its own 32 bytes.
#[verifier::spinoff_prover]
pub proof fn law_q4k_codes_give_the_quants_back(row: Seq<u8>, k: int, g: int, j: int)
    requires
        0 <= k < row.len() as int / 144,
        0 <= g < 4,
        0 <= j < 32,
    ensures
        row_term(row, 256 * k + 64 * g + j).q + 16 * row_term(row, 256 * k + 64 * g + 32 + j).q
            == row[144 * k + 16 + 32 * g + j],
{
    let b = q4k_block(row, k);
    let at = 16 + 32 * g + j;
    lemma_term_of_block(row, k, 64 * g + j);
    lemma_term_of_block(row, k, 64 * g + 32 + j);
    lemma_nibbles(b, g, j);
    lemma_byte_of_block(row, k, at);
    let byte = row[144 * k + at] as int;
    assert(byte % 16 + 16 * (byte / 16) == byte);
}

proof fn lemma_byte_of_block(row: Seq<u8>, k: int, c: int)
    requires
        0 <= k < row.len() as int / 144,
        0 <= c < 144,
    ensures
        q4k_block(row, k)[c] == row[144 * k + c],
{
}

proof fn lemma_nibbles(b: Seq<u8>, g: int, j: int)
    requires
        0 <= g < 4,
        0 <= j < 32,
    ensures
        block_term(b, 64 * g + j).q == b[16 + 32 * g + j] as int % 16,
        block_term(b, 64 * g + 32 + j).q == b[16 + 32 * g + j] as int / 16,
{
    lemma_places(g, j);
    let (x, y) = (64 * g + j, 64 * g + 32 + j);
    assert(x / 64 == g && x % 32 == j && (x / 32) % 2 == 0);
    assert(y / 64 == g && y % 32 == j && (y / 32) % 2 == 1);
}

proof fn lemma_packed(b: Seq<u8>, g: int, i: int)
    requires
        0 <= g < 4,
        0 <= i < 32,
    ensures
        block_term(b, 32 * g + i).scale == b[4 + g] as int % 64,
        block_term(b, 32 * g + i).min == b[8 + g] as int % 64,
        block_term(b, 32 * (g + 4) + i).scale == b[12 + g] as int % 16 + 16 * (b[4 + g] as int
            / 64),
        block_term(b, 32 * (g + 4) + i).min == b[12 + g] as int / 16 + 16 * (b[8 + g] as int / 64),
{
    lemma_places(g, i);
    let (x, y) = (32 * g + i, 32 * (g + 4) + i);
    assert(x / 32 == g && y / 32 == g + 4);
    assert(b[8 + (g + 4)] == b[12 + g] && b[4 + (g + 4)] == b[8 + g]);
}

/// The halves of every value are the block's first four bytes, each the low byte
/// first.
#[verifier::spinoff_prover]
pub proof fn law_q4k_halves_are_the_first_bytes(row: Seq<u8>, k: int, i: int)
    requires
        0 <= k < row.len() as int / 144,
        0 <= i < 256,
    ensures
        row_term(row, 256 * k + i).d % 256 == row[144 * k],
        row_term(row, 256 * k + i).d / 256 == row[144 * k + 1],
        row_term(row, 256 * k + i).dmin % 256 == row[144 * k + 2],
        row_term(row, 256 * k + i).dmin / 256 == row[144 * k + 3],
{
    let b = q4k_block(row, k);
    lemma_term_of_block(row, k, i);
    lemma_byte_of_block(row, k, 0);
    lemma_byte_of_block(row, k, 1);
    lemma_byte_of_block(row, k, 2);
    lemma_byte_of_block(row, k, 3);
    lemma_two_bytes(b[0], b[1]);
    lemma_two_bytes(b[2], b[3]);
    lemma_halves_of_block(b, i);
}

proof fn lemma_halves_of_block(b: Seq<u8>, i: int)
    ensures
        block_term(b, i).d == (b[0] + 256 * b[1]) as u16,
        block_term(b, i).dmin == (b[2] + 256 * b[3]) as u16,
{
}

/// Two bytes, the low one first, are one half's.
proof fn lemma_two_bytes(low: u8, high: u8)
    ensures
        ((low + 256 * high) as u16) % 256 == low,
        ((low + 256 * high) as u16) / 256 == high,
{
}

/// The eight scales and eight mins of a block, six bits each, give its 12 packed
/// bytes back: sub-blocks 0 to 3 fill the low six bits of a byte each, and
/// sub-block 4 further on the two bits above them and a nibble of the last four.
#[verifier::spinoff_prover]
pub proof fn law_q4k_scales_give_their_bytes_back(row: Seq<u8>, k: int, g: int, i: int, j: int)
    requires
        0 <= k < row.len() as int / 144,
        0 <= g < 4,
        0 <= i < 32,
        0 <= j < 32,
    ensures
        ({
            let low = row_term(row, 256 * k + 32 * g + i);
            let high = row_term(row, 256 * k + 32 * (g + 4) + j);
            &&& low.scale + 64 * (high.scale as int / 16) == row[144 * k + 4 + g]
            &&& low.min + 64 * (high.min as int / 16) == row[144 * k + 8 + g]
            &&& high.scale as int % 16 + 16 * (high.min as int % 16) == row[144 * k + 12 + g]
        }),
{
    let b = q4k_block(row, k);
    lemma_term_of_block(row, k, 32 * g + i);
    lemma_term_of_block(row, k, 32 * (g + 4) + j);
    lemma_packed(b, g, i);
    lemma_packed(b, g, j);
    lemma_byte_of_block(row, k, 4 + g);
    lemma_byte_of_block(row, k, 8 + g);
    lemma_byte_of_block(row, k, 12 + g);
    lemma_six_bits(b[4 + g] as int, b[12 + g] as int % 16);
    lemma_six_bits(b[8 + g] as int, b[12 + g] as int / 16);
}

/// A byte's low six bits and its two bits above a nibble give it back.
proof fn lemma_six_bits(byte: int, nibble: int)
    requires
        0 <= byte < 256,
        0 <= nibble < 16,
    ensures
        byte % 64 + 64 * ((nibble + 16 * (byte / 64)) / 16) == byte,
        (nibble + 16 * (byte / 64)) % 16 == nibble,
{
}

/// Every value of a sub-block of 32 shares its scale and its min.
#[verifier::spinoff_prover]
pub proof fn law_q4k_values_share_their_scale(row: Seq<u8>, i: int, j: int)
    requires
        0 <= i < 256 * (row.len() as int / 144),
        0 <= j < 256 * (row.len() as int / 144),
        i / 32 == j / 32,
    ensures
        row_term(row, i).scale == row_term(row, j).scale,
        row_term(row, i).min == row_term(row, j).min,
        row_term(row, i).d == row_term(row, j).d,
        row_term(row, i).dmin == row_term(row, j).dmin,
{
    assert(i / 256 == j / 256 && (i % 256) / 32 == (j % 256) / 32);
}

proof fn lemma_term_of_block(row: Seq<u8>, k: int, i: int)
    requires
        0 <= k < row.len() as int / 144,
        0 <= i < 256,
    ensures
        row_term(row, 256 * k + i) == block_term(q4k_block(row, k), i),
        144 * k + 144 <= row.len(),
{
    assert((256 * k + i) / 256 == k && (256 * k + i) % 256 == i);
}

proof fn lemma_places(g: int, j: int)
    requires
        0 <= g < 4,
        0 <= j < 32,
    ensures
        (64 * g + j) / 64 == g,
        (64 * g + j) % 32 == j,
        (64 * g + j) / 32 == 2 * g,
        (64 * g + 32 + j) / 64 == g,
        (64 * g + 32 + j) % 32 == j,
        (64 * g + 32 + j) / 32 == 2 * g + 1,
        (32 * g + j) / 32 == g,
        (32 * (g + 4) + j) / 32 == g + 4,
{
}

// ------------------------------------------------------------ what a plan holds

/// A layer's plan is read off its rows: the normed, the roped and the cached parts
/// are the rows of their names at that layer, and the query and the key are the
/// rows that the norms take.
pub proof fn law_a_plan_names_its_rows(man: RefManifest, layer: usize, p: AttnPlan)
    requires
        planned(man, layer) == Ok::<Option<AttnPlan>, PlanError>(Some(p)),
        man.tensors@.len() <= usize::MAX,
        man.ints@.len() <= usize::MAX,
    ensures
        ({
            let t = man.tensors@;
            let l = decimal(layer as nat);
            &&& t[p.q_normed as int].name@ == "Qcur_normed"@ + seq!['-'] + l
            &&& t[p.k_normed as int].name@ == "Kcur_normed"@ + seq!['-'] + l
            &&& t[p.q_roped as int].name@ == "Qcur_roped"@ + seq!['-'] + l
            &&& t[p.k_roped as int].name@ == "Kcur_roped"@ + seq!['-'] + l
            &&& t[p.v as int].name@ == "Vcur"@ + seq!['-'] + l
            &&& t[p.k_cache as int].name@ == "cache_k_l"@ + l + " (view) (copy of Kcur_roped-"@ + l
                + ")"@
            &&& t[p.v_cache as int].name@ == "v_cache_view-"@ + l + " (copy of Vcur-"@ + l + ")"@
            &&& opt_chars(t[p.q_normed as int].src0) == Some(t[p.q as int].name@)
            &&& opt_chars(t[p.k_normed as int].src0) == Some(t[p.k as int].name@)
            &&& t[p.q_normed as int].src1 is Some && t[p.k_normed as int].src1 is Some
            &&& t[p.q as int].occurrence == 0 && t[p.k as int].occurrence == 0
            &&& t[p.v as int].occurrence == 0 && t[p.q_roped as int].occurrence == 0
        }),
        p.within(man),
{
    lemma_part_found(man, Part::QNormed, layer);
    lemma_part_found(man, Part::KNormed, layer);
    lemma_part_found(man, Part::QRoped, layer);
    lemma_part_found(man, Part::KRoped, layer);
    lemma_part_found(man, Part::V, layer);
    lemma_part_found(man, Part::KCache, layer);
    lemma_part_found(man, Part::VCache, layer);
    let t = man.tensors@;
    let (qn, kn, qr) = (
        part_at(man, Part::QNormed, layer)->0,
        part_at(man, Part::KNormed, layer)->0,
        part_at(man, Part::QRoped, layer)->0,
    );
    if let Some(name) = opt_chars(t[qn].src0) {
        crate::set::law_a_row_is_found_among_its_kind(man, name, 0, 0);
    }
    if let Some(name) = opt_chars(t[kn].src0) {
        crate::set::law_a_row_is_found_among_its_kind(man, name, 0, 0);
    }
    if let Some(name) = opt_chars(t[qr].src1) {
        crate::index::lemma_first_key(
            keys(man.ints@),
            RowKey { name, occurrence: 0, of: RowKind::Input, layout: Layout::Flat },
            0,
        );
    }
}

proof fn lemma_part_found(man: RefManifest, part: Part, layer: usize)
    ensures
        part_at(man, part, layer) matches Some(j) ==> 0 <= j < man.tensors@.len()
            && man.tensors@[j].name@ == part_name(part, layer) && man.tensors@[j].occurrence == 0,
        part_at(man, part, layer) is None ==> forall|i: int|
            0 <= i < man.tensors@.len() && (#[trigger] man.tensors@[i]).kind == RowKind::Tensor
                ==> man.tensors@[i].name@ != part_name(part, layer) || man.tensors@[i].occurrence != 0,
{
    crate::set::law_a_row_is_found_among_its_kind(man, part_name(part, layer), 0, 0);
    assert forall|i: int|
        0 <= i < man.tensors@.len() && (#[trigger] man.tensors@[i]).kind == RowKind::Tensor && part_at(
            man,
            part,
            layer,
        ) is None implies man.tensors@[i].name@ != part_name(part, layer)
        || man.tensors@[i].occurrence != 0 by {
        crate::set::law_a_row_is_found_among_its_kind(man, part_name(part, layer), 0, i);
    }
}

/// A plan's heads are 128 wide, its queries and keys of as many tokens, and its
/// positions the rope's second operand; a layer without a normed query has none.
pub proof fn law_a_plan_fits_its_heads(man: RefManifest, layer: usize, p: AttnPlan, i: int)
    requires
        man.tensors@.len() <= usize::MAX,
        man.ints@.len() <= usize::MAX,
    ensures
        planned(man, layer) == Ok::<Option<AttnPlan>, PlanError>(Some(p)) ==> {
            let t = man.tensors@;
            &&& t[p.q_normed as int].ne@[0] == 128 && t[p.k_normed as int].ne@[0] == 128
            &&& t[p.q_normed as int].ne@[2] == t[p.k_normed as int].ne@[2]
            &&& opt_chars(t[p.q_roped as int].src1) == Some(man.ints@[p.pos as int].name@)
            &&& man.ints@[p.pos as int].of == RowKind::Input
        },
        planned(man, layer) == Ok::<Option<AttnPlan>, PlanError>(None) && 0 <= i < man.tensors@.len()
            && man.tensors@[i].kind == RowKind::Tensor && man.tensors@[i].occurrence == 0
            ==> man.tensors@[i].name@ != "Qcur_normed"@ + seq!['-'] + decimal(layer as nat),
{
    let t = man.tensors@;
    lemma_part_found(man, Part::QNormed, layer);
    lemma_part_found(man, Part::KNormed, layer);
    lemma_part_found(man, Part::QRoped, layer);
    if part_at(man, Part::QRoped, layer) is Some {
        let qr = part_at(man, Part::QRoped, layer)->0;
        if let Some(name) = opt_chars(t[qr].src1) {
            let key = RowKey { name, occurrence: 0, of: RowKind::Input, layout: Layout::Flat };
            crate::index::lemma_first_key(keys(man.ints@), key, 0);
            if let Some(j) = first_key(keys(man.ints@), key, 0) {
                assert(keys(man.ints@)[j] == crate::index::Keyed::key(&man.ints@[j]));
            }
        }
    }
}

/// A layer's rows are read where every file reads, every position is one of 32 bits
/// and there are as many as tokens; the first that does not is the one refused, the
/// positions before the parts.
pub proof fn law_a_layers_files_all_read(
    man: RefManifest,
    p: AttnPlan,
    f: AttnFiles<'_>,
    v: Seq<i64>,
    i: int,
)
    requires
        int_read(man.ints@[p.pos as int], f.pos@) == Ok::<Seq<i64>, FileError>(v),
        0 <= i < v.len(),
    ensures
        ({
            let t = man.tensors@;
            &&& attn_fault(man, p, f) is None ==> {
                &&& 0 <= v[i] <= 0xffff_ffff
                &&& v.len() == t[p.q_normed as int].ne@[2]
                &&& logical_read(t[p.q as int], f.q@) is Ok && logical_read(t[p.k as int], f.k@) is Ok
                &&& logical_read(t[p.v as int], f.v@) is Ok
                &&& logical_read(t[p.q_normed as int], f.q_normed@) is Ok
                &&& logical_read(t[p.k_normed as int], f.k_normed@) is Ok
                &&& logical_read(t[p.q_roped as int], f.q_roped@) is Ok
                &&& logical_read(t[p.k_roped as int], f.k_roped@) is Ok
            }
            &&& (forall|k: int| 0 <= k < v.len() ==> 0 <= #[trigger] v[k] <= 0xffff_ffff) && v.len()
                == t[p.q_normed as int].ne@[2] ==> {
                &&& logical_read(t[p.q as int], f.q@) matches Err(e) ==> attn_fault(man, p, f) == Some(
                    AttnError::File(Part::Q, e),
                )
                &&& logical_read(t[p.q as int], f.q@) is Ok && logical_read(t[p.k as int], f.k@) is Ok
                    && logical_read(t[p.v as int], f.v@) is Ok && logical_read(
                    t[p.q_normed as int],
                    f.q_normed@,
                ) is Ok && logical_read(t[p.k_normed as int], f.k_normed@) is Ok && logical_read(
                    t[p.q_roped as int],
                    f.q_roped@,
                ) is Ok && logical_read(t[p.k_roped as int], f.k_roped@) is Ok ==> attn_fault(man, p, f)
                    is None
            }
        }),
{
    lemma_first_bad_position_is(v, 0, i);
}

proof fn lemma_first_bad_position_is(v: Seq<i64>, at: int, i: int)
    requires
        0 <= at <= i < v.len(),
    ensures
        match first_bad_position(v, at) {
            Some(f) => at <= f < v.len() && !(0 <= v[f] <= 0xffff_ffff) && (i < f ==> 0 <= v[i]
                <= 0xffff_ffff),
            None => 0 <= v[i] <= 0xffff_ffff,
        },
    decreases v.len() - at,
{
    if 0 <= v[at] <= 0xffff_ffff && at + 1 < v.len() {
        lemma_first_bad_position_is(
            v,
            at + 1,
            if i > at {
                i
            } else {
                at + 1
            },
        );
    } else {
        reveal_with_fuel(first_bad_position, 2);
    }
}

/// A cache's file gives one reading: two that hold of one row and one file are the
/// same values.
pub proof fn law_a_wide_cache_has_one_reading(row: RefRow, raw: Seq<u8>, a: Seq<u16>, b: Seq<u16>)
    requires
        row.logical == Some(1u8),
        f16_reads(row, raw, Ok(a)),
        f16_reads(row, raw, Ok(b)),
    ensures
        row.ty@ == "f16"@,
        raw.len() == 4 * product(row.ne@),
        a.len() == b.len() == raw.len() / 4,
        forall|i: int| 0 <= i < a.len() ==> widened(#[trigger] a[i]) == widened(b[i]),
{
    assert forall|i: int| 0 <= i < a.len() implies widened(#[trigger] a[i]) == widened(b[i]) by {
        assert(widened(b[i]) == singles(raw)[i]);
    }
}

} // verus!
