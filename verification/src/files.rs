//! The files of a dump set, read against the rows that describe them: every
//! reader proves that the bytes it was handed are the tensor its row names
//! before it hands a value out. Singles come out by their bits.
use crate::bits;
use crate::bits::first_nonfinite;
use crate::bits::widened;
use crate::gate::bytes_to_words;
use crate::gate::word_at;
use crate::index::first_key;
use crate::index::keys;
use crate::index::RowKey;
use crate::manifest::product;
use crate::manifest::product_fits;
use crate::manifest::IntRow;
use crate::manifest::RefRow;
use crate::naming::dump_file_name;
use crate::naming::file_name_of;
use crate::naming::FileElem;
use crate::naming::Layout;
use crate::set::RefManifest;
use crate::text;
use vstd::prelude::*;

verus! {

/// Why a file is not what a reader wants of a row.
#[derive(Clone, Copy, Debug, PartialEq, Eq, Structural)]
pub enum FileError {
    /// The row's type is not the reader's.
    Type,
    /// The row's element count, or its byte count, leaves 64 bits.
    Overflow,
    /// The row's byte count is not that of its elements.
    RowBytes,
    /// The file's length is not the one the row gives.
    FileBytes,
    /// The value at this index is not finite.
    NonFinite(usize),
    /// The row is a view or not contiguous: its plain file is a flat read, not
    /// the tensor.
    NotPlain,
    /// The row's file is not the one the naming rule gives it.
    Name,
    /// The row twins no integers.
    NotInteger,
    /// The values' sum or largest magnitude is not the row's.
    Sum,
    /// The value at this index is neither 0 nor minus infinity.
    NotMask(usize),
    /// This row of the tensor is past its values.
    PastEnd(u32),
    /// This row of the tensor holds a value no half widens to.
    NotHalf(u32),
    /// The value at this index is one no half widens to.
    NotWidened(usize),
    /// The tensor has more rows than an index names.
    Rows,
    /// The row carries no logical twin.
    NoLogical,
    /// The set has integer twins, but none for this row.
    NoTwin,
    /// The twin has not the row's element count.
    Count,
    /// The value at this index is no id in range.
    Id(usize),
}

/// Four times the element count fits 64 bits.
pub open spec fn four_fit(ne: Seq<u64>) -> bool {
    product_fits(ne) && 4 * product(ne) <= u64::MAX
}

/// A row's plain file is its logical order, so a whole-tensor read of it is
/// the tensor: the `contig` column decides; on a manifest without it only the
/// op can rule out a flat VIEW read.
pub open spec fn is_plain(row: RefRow) -> bool {
    match row.contig {
        Some(c) => c == 1,
        None => row.op@ != "VIEW"@,
    }
}

/// Whether a row's plain file is its logical order.
pub fn plain_is_logical(row: &RefRow) -> (r: bool)
    ensures
        r == is_plain(*row),
{
    match row.contig {
        Some(c) => c == 1,
        None => !text::same_str(row.op.as_str(), "VIEW"),
    }
}

/// The singles of a file, by their bits.
pub open spec fn singles(raw: Seq<u8>) -> Seq<u32> {
    Seq::new((raw.len() / 4) as nat, |k: int| word_at(raw, k) as u32)
}

/// The singles of a file whose length is a multiple of four.
fn singles_of(raw: &[u8]) -> (r: Vec<u32>)
    requires
        raw@.len() % 4 == 0,
    ensures
        r@ == singles(raw@),
{
    let v: Vec<u32> = bytes_to_words(raw);
    assert(v@ =~= singles(raw@));
    v
}

/// Four bytes for each element of the row, where 64 bits hold it.
fn four_per_element(row: &RefRow) -> (r: Option<u64>)
    ensures
        match r {
            Some(n) => four_fit(row.ne@) && n == 4 * product(row.ne@),
            None => !four_fit(row.ne@),
        },
{
    match row.checked_count() {
        None => None,
        Some(n) => n.checked_mul(4),
    }
}

// ------------------------------------------------------------ f32 rows

/// What the plain f32 read of a row gives: the type must be f32, the row's
/// byte count four times its element count and the file's length, and every
/// value finite.
pub open spec fn plain_read(row: RefRow, raw: Seq<u8>) -> Result<Seq<u32>, FileError> {
    if row.ty@ != "f32"@ {
        Err(FileError::Type)
    } else if !four_fit(row.ne@) {
        Err(FileError::Overflow)
    } else if row.bytes != 4 * product(row.ne@) {
        Err(FileError::RowBytes)
    } else if raw.len() != row.bytes {
        Err(FileError::FileBytes)
    } else {
        match first_nonfinite(singles(raw), 0) {
            Some(i) => Err(FileError::NonFinite(i as usize)),
            None => Ok(singles(raw)),
        }
    }
}

/// One manifest row's f32 file, checked against its own row.
pub fn ref_tensor_of(row: &RefRow, raw: &[u8]) -> (r: Result<Vec<u32>, FileError>)
    ensures
        match r {
            Ok(v) => plain_read(*row, raw@) == Ok::<Seq<u32>, FileError>(v@),
            Err(e) => plain_read(*row, raw@) == Err::<Seq<u32>, FileError>(e),
        },
{
    if !text::same_str(row.ty.as_str(), "f32") {
        return Err(FileError::Type);
    }
    let expect: u64 = match four_per_element(row) {
        Some(n) => n,
        None => {
            return Err(FileError::Overflow);
        },
    };
    if row.bytes != expect {
        return Err(FileError::RowBytes);
    }
    if raw.len() as u64 != row.bytes {
        return Err(FileError::FileBytes);
    }
    let v: Vec<u32> = singles_of(raw);
    match bits::find_nonfinite(v.as_slice()) {
        Some(i) => Err(FileError::NonFinite(i)),
        None => Ok(v),
    }
}

/// Which file a logical read of a row takes.
#[derive(Clone, Copy, Debug, PartialEq, Eq, Structural)]
pub enum Source {
    /// The logical twin.
    Twin,
    /// The plain file, which is the tensor.
    Plain,
}

/// The file a logical read takes: the logical twin when the dump wrote one,
/// else the plain file when the row is provably not a flat VIEW read. A VIEW
/// row without a logical twin is an error, never a silent flat read.
pub fn logical_source(row: &RefRow) -> (r: Result<Source, FileError>)
    ensures
        r == (if row.logical == Some(1u8) {
            Ok::<Source, FileError>(Source::Twin)
        } else if is_plain(*row) {
            Ok(Source::Plain)
        } else {
            Err(FileError::NotPlain)
        }),
{
    let twin: bool = match row.logical {
        Some(l) => l == 1,
        None => false,
    };
    if twin {
        Ok(Source::Twin)
    } else if plain_is_logical(row) {
        Ok(Source::Plain)
    } else {
        Err(FileError::NotPlain)
    }
}

/// What the logical read of a row gives, `raw` the file it takes.
pub open spec fn logical_read(row: RefRow, raw: Seq<u8>) -> Result<Seq<u32>, FileError> {
    if row.logical == Some(1u8) {
        if row.ty@ != "f32"@ {
            Err(FileError::Type)
        } else if !four_fit(row.ne@) {
            Err(FileError::Overflow)
        } else if raw.len() != 4 * product(row.ne@) {
            Err(FileError::FileBytes)
        } else {
            match first_nonfinite(singles(raw), 0) {
                Some(i) => Err(FileError::NonFinite(i as usize)),
                None => Ok(singles(raw)),
            }
        }
    } else if !is_plain(row) {
        Err(FileError::NotPlain)
    } else {
        plain_read(row, raw)
    }
}

/// The row's logical elements in ggml index order, `raw` the bytes of the file
/// that [`logical_source`] names.
pub fn ref_tensor_logical(row: &RefRow, raw: &[u8]) -> (r: Result<Vec<u32>, FileError>)
    ensures
        match r {
            Ok(v) => logical_read(*row, raw@) == Ok::<Seq<u32>, FileError>(v@),
            Err(e) => logical_read(*row, raw@) == Err::<Seq<u32>, FileError>(e),
        },
{
    match logical_source(row) {
        Err(e) => Err(e),
        Ok(Source::Plain) => ref_tensor_of(row, raw),
        Ok(Source::Twin) => {
            if !text::same_str(row.ty.as_str(), "f32") {
                return Err(FileError::Type);
            }
            let expect: u64 = match four_per_element(row) {
                Some(n) => n,
                None => {
                    return Err(FileError::Overflow);
                },
            };
            if raw.len() as u64 != expect {
                return Err(FileError::FileBytes);
            }
            let v: Vec<u32> = singles_of(raw);
            match bits::find_nonfinite(v.as_slice()) {
                Some(i) => Err(FileError::NonFinite(i)),
                None => Ok(v),
            }
        },
    }
}

// ------------------------------------------------------------ integer twins

/// 32 bits as a signed integer.
pub open spec fn signed32(w: int) -> int {
    if w >= 0x8000_0000 {
        w - 0x1_0000_0000
    } else {
        w
    }
}

/// 64 bits as a signed integer.
pub open spec fn signed64(w: int) -> int {
    if w >= 0x8000_0000_0000_0000 {
        w - 0x1_0000_0000_0000_0000
    } else {
        w
    }
}

/// Element `k` of an integer file.
pub open spec fn int_at(raw: Seq<u8>, twin: FileElem, k: int) -> int {
    if twin == FileElem::I64 {
        signed64(word_at(raw, 2 * k) + 0x1_0000_0000 * word_at(raw, 2 * k + 1))
    } else {
        signed32(word_at(raw, k))
    }
}

/// The integers of a file.
pub open spec fn ints_in(raw: Seq<u8>, twin: FileElem) -> Seq<i64> {
    Seq::new(
        (raw.len() / twin.bytes_each() as nat) as nat,
        |k: int| int_at(raw, twin, k) as i64,
    )
}

/// The sum of the values.
pub open spec fn total(v: Seq<i64>) -> int
    decreases v.len(),
{
    if v.len() == 0 {
        0
    } else {
        total(v.drop_last()) + v.last()
    }
}

/// A magnitude.
pub open spec fn magnitude(v: i64) -> int {
    if v < 0 {
        -v
    } else {
        v as int
    }
}

/// The largest magnitude, 0 of no values.
pub open spec fn largest(v: Seq<i64>) -> int
    decreases v.len(),
{
    if v.len() == 0 {
        0
    } else {
        let before = largest(v.drop_last());
        if magnitude(v.last()) > before {
            magnitude(v.last())
        } else {
            before
        }
    }
}

/// What the read of an integer twin gives: its file is the one the naming rule
/// gives the row, its bytes are the element count times the twin's width and
/// the file's length, and the sum (wrapping in 64 bits) and the largest
/// magnitude of the values are the row's.
pub open spec fn int_read(row: IntRow, raw: Seq<u8>) -> Result<Seq<i64>, FileError> {
    let v = ints_in(raw, row.twin);
    if row.file@ != file_name_of(row.name@, row.occurrence, row.of, row.layout, row.twin) {
        Err(FileError::Name)
    } else if row.count * row.twin.bytes_each() > u64::MAX {
        Err(FileError::Overflow)
    } else if row.bytes != row.count * row.twin.bytes_each() {
        Err(FileError::RowBytes)
    } else if raw.len() != row.bytes {
        Err(FileError::FileBytes)
    } else if row.twin == FileElem::F32 {
        Err(FileError::NotInteger)
    } else if row.sum != signed64(total(v) % 0x1_0000_0000_0000_0000) || row.absmax != largest(v) {
        Err(FileError::Sum)
    } else {
        Ok(v)
    }
}

/// The integers of a file whose length is a multiple of the twin's width.
fn ints_of(raw: &[u8], twin: FileElem) -> (r: Vec<i64>)
    requires
        raw@.len() % twin.bytes_each() as nat == 0,
    ensures
        r@ == ints_in(raw@, twin),
{
    let words: Vec<u32> = bytes_to_words(raw);
    let mut out: Vec<i64> = Vec::new();
    let mut i: usize = 0;
    if twin == FileElem::I64 {
        assert(words@.len() == 2 * (raw@.len() / 8));
        while i < words.len()
            invariant
                i <= words@.len(),
                i == 2 * out@.len(),
                words@.len() % 2 == 0,
                forall|k: int| 0 <= k < words@.len() ==> #[trigger] words@[k] == word_at(raw@, k),
                forall|k: int|
                    0 <= k < out@.len() ==> #[trigger] out@[k] == int_at(raw@, FileElem::I64, k),
            decreases words@.len() - i,
        {
            let w: u64 = words[i] as u64 + 0x1_0000_0000 * (words[i + 1] as u64);
            let v: i64 = if w >= 0x8000_0000_0000_0000 {
                -((0xffff_ffff_ffff_ffff - w) as i64) - 1
            } else {
                w as i64
            };
            assert(v == int_at(raw@, FileElem::I64, out@.len() as int));
            out.push(v);
            i += 2;
        }
    } else {
        while i < words.len()
            invariant
                i <= words@.len(),
                i == out@.len(),
                twin != FileElem::I64,
                forall|k: int| 0 <= k < words@.len() ==> #[trigger] words@[k] == word_at(raw@, k),
                forall|k: int| 0 <= k < out@.len() ==> #[trigger] out@[k] == int_at(raw@, twin, k),
            decreases words@.len() - i,
        {
            let w: i64 = words[i] as i64;
            let v: i64 = if w >= 0x8000_0000 {
                w - 0x1_0000_0000
            } else {
                w
            };
            out.push(v);
            i += 1;
        }
    }
    assert(out@ =~= ints_in(raw@, twin));
    out
}

/// The wrapping sum and the largest magnitude of the values.
fn sum_and_absmax(v: &[i64]) -> (r: (i64, u64))
    ensures
        r.0 == signed64(total(v@) % 0x1_0000_0000_0000_0000),
        r.1 == largest(v@),
{
    let mut acc: u64 = 0;
    let mut absmax: u64 = 0;
    let mut i: usize = 0;
    while i < v.len()
        invariant
            i <= v@.len(),
            acc == total(v@.take(i as int)) % 0x1_0000_0000_0000_0000,
            absmax == largest(v@.take(i as int)),
        decreases v@.len() - i,
    {
        let x: i64 = v[i];
        assert(v@.take(i + 1).drop_last() =~= v@.take(i as int));
        assert(v@.take(i + 1).last() == x);
        let m: u64 = if x < 0 {
            (-(x + 1)) as u64 + 1
        } else {
            x as u64
        };
        assert(m == magnitude(x));
        acc = if x < 0 {
            acc.wrapping_sub(m)
        } else {
            acc.wrapping_add(m)
        };
        if m > absmax {
            absmax = m;
        }
        i += 1;
    }
    assert(v@.take(v@.len() as int) =~= v@);
    let sum: i64 = if acc >= 0x8000_0000_0000_0000 {
        -((0xffff_ffff_ffff_ffff - acc) as i64) - 1
    } else {
        acc as i64
    };
    (sum, absmax)
}

/// The exact integers of an int row, widened to i64, read from its file after
/// proving that the file is the one the row describes. A wrong file, offset or
/// width fails here.
pub fn ref_ints_of(row: &IntRow, raw: &[u8]) -> (r: Result<Vec<i64>, FileError>)
    ensures
        match r {
            Ok(v) => int_read(*row, raw@) == Ok::<Seq<i64>, FileError>(v@),
            Err(e) => int_read(*row, raw@) == Err::<Seq<i64>, FileError>(e),
        },
{
    let want: String = dump_file_name(
        row.name.as_str(),
        row.occurrence,
        row.of,
        row.layout,
        row.twin,
    );
    if !text::same_str(row.file.as_str(), want.as_str()) {
        return Err(FileError::Name);
    }
    let expect: u64 = match row.count.checked_mul(row.twin.width()) {
        Some(n) => n,
        None => {
            return Err(FileError::Overflow);
        },
    };
    if row.bytes != expect {
        return Err(FileError::RowBytes);
    }
    if raw.len() as u64 != row.bytes {
        return Err(FileError::FileBytes);
    }
    if row.twin == FileElem::F32 {
        return Err(FileError::NotInteger);
    }
    assert(raw@.len() % row.twin.bytes_each() as nat == 0) by {
        let w = row.twin.bytes_each() as int;
        vstd::arithmetic::div_mod::lemma_mod_multiples_basic(row.count as int, w);
    }
    let v: Vec<i64> = ints_of(raw, row.twin);
    let (sum, absmax): (i64, u64) = sum_and_absmax(v.as_slice());
    if sum != row.sum || absmax != row.absmax {
        return Err(FileError::Sum);
    }
    Ok(v)
}

// ------------------------------------------------------------ masks

/// The first position from `at` on of a value that is neither 0 nor minus
/// infinity, bit for bit.
pub open spec fn first_not_mask(v: Seq<u32>, at: int) -> Option<int>
    decreases v.len() - at,
{
    if at < 0 || at >= v.len() {
        None
    } else if v[at] != 0 && v[at] != 0xff80_0000 {
        Some(at)
    } else {
        first_not_mask(v, at + 1)
    }
}

/// The half of a mask value: 0 for a cell the query sees, minus infinity for
/// one it does not.
pub open spec fn mask_half(v: u32) -> u16 {
    if v == 0 {
        0x0000
    } else {
        0xfc00
    }
}

/// What the read of a mask row gives: an `f16` row, its plain file its logical
/// order, whose f32 file holds every value exactly 0 (a cell the query sees) or
/// minus infinity (one it does not), each mapped to that value's half.
/// Anything else is an error, for a value the first offending one's index.
pub open spec fn mask_read(row: RefRow, raw: Seq<u8>) -> Result<Seq<u16>, FileError> {
    if row.ty@ != "f16"@ {
        Err(FileError::Type)
    } else if !is_plain(row) {
        Err(FileError::NotPlain)
    } else if !four_fit(row.ne@) || row.bytes != 4 * product(row.ne@) || raw.len() != row.bytes {
        Err(FileError::FileBytes)
    } else {
        match first_not_mask(singles(raw), 0) {
            Some(i) => Err(FileError::NotMask(i as usize)),
            None => Ok(singles(raw).map_values(|v: u32| mask_half(v))),
        }
    }
}

/// The f16 bits of a mask row.
pub fn mask_bits(row: &RefRow, raw: &[u8]) -> (r: Result<Vec<u16>, FileError>)
    ensures
        match r {
            Ok(v) => mask_read(*row, raw@) == Ok::<Seq<u16>, FileError>(v@),
            Err(e) => mask_read(*row, raw@) == Err::<Seq<u16>, FileError>(e),
        },
{
    if !text::same_str(row.ty.as_str(), "f16") {
        return Err(FileError::Type);
    }
    if !plain_is_logical(row) {
        return Err(FileError::NotPlain);
    }
    match four_per_element(row) {
        None => {
            return Err(FileError::FileBytes);
        },
        Some(want) => {
            if want != row.bytes || want != raw.len() as u64 {
                return Err(FileError::FileBytes);
            }
        },
    }
    let v: Vec<u32> = singles_of(raw);
    let mut out: Vec<u16> = Vec::new();
    let mut i: usize = 0;
    while i < v.len()
        invariant
            i <= v@.len(),
            v@ == singles(raw@),
            first_not_mask(v@, 0) == first_not_mask(v@, i as int),
            out@ =~= v@.take(i as int).map_values(|v: u32| mask_half(v)),
            row.ty@ == "f16"@,
            is_plain(*row),
            four_fit(row.ne@),
            row.bytes == 4 * product(row.ne@),
            raw@.len() == row.bytes,
        decreases v@.len() - i,
    {
        if v[i] == 0 {
            out.push(0x0000);
        } else if v[i] == 0xff80_0000 {
            out.push(0xfc00);
        } else {
            return Err(FileError::NotMask(i));
        }
        i += 1;
    }
    assert(v@.take(v@.len() as int) =~= v@);
    Ok(out)
}

// ------------------------------------------------------------ widened halves

/// A row of halves that the dump widened: its type is f16 and its file holds
/// four bytes for each element.
pub open spec fn is_widened(row: RefRow) -> bool {
    row.ty@ == "f16"@ && four_fit(row.ne@) && row.bytes == 4 * product(row.ne@)
}

/// The halves `out` widen to the singles of rows `idx` of the tensor, row
/// after row, `width` values a row.
pub open spec fn widens_to(out: Seq<u16>, v: Seq<u32>, width: int, idx: Seq<u32>) -> bool {
    &&& out.len() == idx.len() * width
    &&& forall|k: int, j: int|
        #![trigger out[k * width + j]]
        0 <= k < idx.len() && 0 <= j < width ==> widened(out[k * width + j]) == v[idx[k] * width + j]
}

/// No half widens to the value.
pub open spec fn not_half(v: u32) -> bool {
    forall|h: u16| #[trigger] widened(h) != v
}

/// Row `r` of the tensor is among its values.
pub open spec fn row_in(r: u32, width: int, count: int) -> bool {
    r * width + width <= count
}

/// Row `r` of the tensor holds a value no half widens to.
pub open spec fn row_not_half(v: Seq<u32>, r: u32, width: int) -> bool {
    exists|j: int| 0 <= j < width && not_half(#[trigger] v[r * width + j])
}

/// Rows `idx` of an f16 row as f16 bits, row after row, `ne[0]` values a row.
/// The dump widened each half to f32 exactly, so a value that no half widens
/// to is an error naming its row. Only the rows asked for are read. The rows
/// come from the plain file, so it must be the tensor: a row that is a view or
/// not contiguous is an error.
pub fn widened_f16_bits(row: &RefRow, raw: &[u8], idx: &[u32]) -> (r: Result<Vec<u16>, FileError>)
    ensures
        match r {
            Ok(out) => {
                &&& is_widened(*row)
                &&& is_plain(*row)
                &&& raw@.len() == row.bytes
                &&& forall|k: int|
                    0 <= k < idx@.len() ==> row_in(
                        #[trigger] idx@[k],
                        row.ne@[0] as int,
                        product(row.ne@),
                    )
                &&& widens_to(out@, singles(raw@), row.ne@[0] as int, idx@)
            },
            Err(FileError::Type) => !is_widened(*row),
            Err(FileError::NotPlain) => {
                &&& is_widened(*row)
                &&& !is_plain(*row)
            },
            Err(FileError::FileBytes) => {
                &&& is_widened(*row)
                &&& is_plain(*row)
                &&& raw@.len() != row.bytes
            },
            Err(FileError::PastEnd(p)) => {
                &&& is_widened(*row)
                &&& is_plain(*row) && raw@.len() == row.bytes
                &&& exists|k: int|
                    0 <= k < idx@.len() && #[trigger] idx@[k] == p && !row_in(
                        p,
                        row.ne@[0] as int,
                        product(row.ne@),
                    ) && rows_good(*row, raw@, idx@, k)
            },
            Err(FileError::NotHalf(p)) => {
                &&& is_widened(*row)
                &&& is_plain(*row) && raw@.len() == row.bytes
                &&& exists|k: int|
                    0 <= k < idx@.len() && #[trigger] idx@[k] == p && row_in(
                        p,
                        row.ne@[0] as int,
                        product(row.ne@),
                    ) && row_not_half(singles(raw@), p, row.ne@[0] as int) && rows_good(
                        *row,
                        raw@,
                        idx@,
                        k,
                    )
            },
            Err(_) => false,
        },
{
    let count: u64 = match row.checked_count() {
        None => {
            return Err(FileError::Type);
        },
        Some(n) => n,
    };
    let four: bool = match count.checked_mul(4) {
        Some(n) => n == row.bytes,
        None => false,
    };
    if !text::same_str(row.ty.as_str(), "f16") || !four {
        return Err(FileError::Type);
    }
    if !plain_is_logical(row) {
        return Err(FileError::NotPlain);
    }
    if raw.len() as u64 != row.bytes {
        return Err(FileError::FileBytes);
    }
    let width: u64 = row.ne[0];
    let mut out: Vec<u16> = Vec::new();
    let ghost v = singles(raw@);
    let mut k: usize = 0;
    while k < idx.len()
        invariant
            k <= idx@.len(),
            is_widened(*row),
            is_plain(*row),
            raw@.len() == row.bytes,
            raw@.len() <= usize::MAX,
            count == product(row.ne@),
            width == row.ne@[0],
            v == singles(raw@),
            rows_good(*row, raw@, idx@, k as int),
            widens_to(out@, v, width as int, idx@.take(k as int)),
        decreases idx@.len() - k,
    {
        let p: u32 = idx[k];
        let inside: bool = match (p as u64).checked_mul(width) {
            None => {
                assert(!row_in(p, width as int, count as int));
                false
            },
            Some(first) => first <= count && width <= count - first,
        };
        if !inside {
            return Err(FileError::PastEnd(p));
        }
        let first: u64 = p as u64 * width;
        let ghost before = out@;
        let mut j: u64 = 0;
        assert(before.len() == k * width) by {
            assert(idx@.take(k as int).len() == k);
        }
        while j < width
            invariant
                j <= width,
                k < idx@.len(),
                p == idx@[k as int],
                first == p * width,
                first + width <= count,
                4 * count == raw@.len(),
                raw@.len() <= usize::MAX,
                count == product(row.ne@),
                width == row.ne@[0],
                is_widened(*row),
                is_plain(*row),
                raw@.len() == row.bytes,
                v == singles(raw@),
                rows_good(*row, raw@, idx@, k as int),
                out@.len() == before.len() + j,
                forall|m: int| 0 <= m < before.len() ==> out@[m] == before[m],
                forall|m: int|
                    0 <= m < j ==> widened(#[trigger] out@[before.len() + m]) == v[first + m],
            decreases width - j,
        {
            let at: usize = 4 * ((first + j) as usize);
            let b0: u32 = raw[at] as u32;
            let b1: u32 = raw[at + 1] as u32;
            let b2: u32 = raw[at + 2] as u32;
            let b3: u32 = raw[at + 3] as u32;
            let bits: u32 = b0 + 256 * b1 + 65536 * b2 + 16777216 * b3;
            assert(bits == v[first + j]);
            match bits::narrowed(bits) {
                None => {
                    proof {
                        assert(not_half(v[p * width + j]));
                        assert(row_not_half(v, p, width as int));
                    }
                    return Err(FileError::NotHalf(p));
                },
                Some(h) => {
                    out.push(h);
                },
            }
            j += 1;
        }
        proof {
            lemma_widens_next(before, out@, v, width as int, idx@, k as int);
            lemma_row_good(*row, raw@, idx@, k as int, out@, before.len() as int);
        }
        k += 1;
    }
    assert(idx@.take(idx@.len() as int) =~= idx@);
    assert forall|k: int| 0 <= k < idx@.len() implies row_in(
        #[trigger] idx@[k],
        row.ne@[0] as int,
        product(row.ne@),
    ) by {}
    Ok(out)
}

/// The first `k` rows asked for are among the tensor's values, and a half
/// widens to each value they hold.
pub open spec fn rows_good(row: RefRow, raw: Seq<u8>, idx: Seq<u32>, k: int) -> bool {
    forall|m: int|
        0 <= m < k ==> row_in(#[trigger] idx[m], row.ne@[0] as int, product(row.ne@))
            && !row_not_half(singles(raw), idx[m], row.ne@[0] as int)
}

proof fn lemma_row_good(
    row: RefRow,
    raw: Seq<u8>,
    idx: Seq<u32>,
    k: int,
    out: Seq<u16>,
    base: int,
)
    requires
        0 <= k < idx.len(),
        rows_good(row, raw, idx, k),
        row_in(idx[k], row.ne@[0] as int, product(row.ne@)),
        forall|m: int|
            0 <= m < row.ne@[0] ==> widened(#[trigger] out[base + m]) == singles(raw)[idx[k]
                * row.ne@[0] + m],
    ensures
        rows_good(row, raw, idx, k + 1),
{
    if row_not_half(singles(raw), idx[k], row.ne@[0] as int) {
        let j = choose|j: int|
            0 <= j < row.ne@[0] && not_half(#[trigger] singles(raw)[idx[k] * row.ne@[0] + j]);
        assert(widened(out[base + j]) != singles(raw)[idx[k] * row.ne@[0] + j]);
    }
}

proof fn lemma_widens_next(
    before: Seq<u16>,
    out: Seq<u16>,
    v: Seq<u32>,
    width: int,
    idx: Seq<u32>,
    k: int,
)
    requires
        0 <= k < idx.len(),
        0 <= width,
        widens_to(before, v, width, idx.take(k)),
        out.len() == before.len() + width,
        forall|m: int| 0 <= m < before.len() ==> out[m] == before[m],
        forall|m: int|
            0 <= m < width ==> widened(#[trigger] out[before.len() + m]) == v[idx[k] * width + m],
    ensures
        widens_to(out, v, width, idx.take(k + 1)),
{
    assert(before.len() == k * width);
    assert(out.len() == (k + 1) * width) by (nonlinear_arith)
        requires
            out.len() == k * width + width,
    ;
    assert forall|a: int, j: int|
        #![trigger out[a * width + j]]
        0 <= a < k + 1 && 0 <= j < width implies widened(out[a * width + j]) == v[idx.take(
        k + 1,
    )[a] * width + j] by {
        if a < k {
            assert(a * width + j < k * width) by (nonlinear_arith)
                requires
                    0 <= a < k,
                    0 <= j < width,
            ;
            assert(0 <= a * width + j) by (nonlinear_arith)
                requires
                    0 <= a,
                    0 <= j < width,
            ;
            assert(out[a * width + j] == before[a * width + j]);
            assert(idx.take(k)[a] == idx.take(k + 1)[a]);
        } else {
            assert(out[before.len() + j] == out[a * width + j]);
        }
    }
}

/// The number of rows of a tensor: its elements over `ne[0]`, none where that
/// is zero.
pub open spec fn row_count(ne: Seq<u64>) -> int {
    if ne[0] == 0 {
        0
    } else {
        product(ne) / (ne[0] as int)
    }
}

/// The first `n` row indices.
pub open spec fn first_rows(n: int) -> Seq<u32> {
    Seq::new(n as nat, |i: int| i as u32)
}

/// Every row of an f16 row, as f16 bits: [`widened_f16_bits`] over all its
/// rows, which refuses a row whose plain file is not the tensor.
pub fn widened_f16_rows(row: &RefRow, raw: &[u8]) -> (r: Result<Vec<u16>, FileError>)
    ensures
        match r {
            Ok(out) => {
                &&& is_widened(*row)
                &&& is_plain(*row)
                &&& raw@.len() == row.bytes
                &&& row_count(row.ne@) <= u32::MAX
                &&& widens_to(
                    out@,
                    singles(raw@),
                    row.ne@[0] as int,
                    first_rows(row_count(row.ne@)),
                )
            },
            Err(FileError::Overflow) => !product_fits(row.ne@),
            Err(FileError::Rows) => product_fits(row.ne@) && row_count(row.ne@) > u32::MAX,
            Err(FileError::Type) => {
                &&& product_fits(row.ne@) && row_count(row.ne@) <= u32::MAX
                &&& !is_widened(*row)
            },
            Err(FileError::NotPlain) => {
                &&& is_widened(*row) && row_count(row.ne@) <= u32::MAX
                &&& !is_plain(*row)
            },
            Err(FileError::FileBytes) => {
                &&& is_widened(*row) && row_count(row.ne@) <= u32::MAX
                &&& is_plain(*row)
                &&& raw@.len() != row.bytes
            },
            Err(FileError::NotHalf(p)) => {
                &&& row_count(row.ne@) <= u32::MAX
                &&& is_widened(*row)
                &&& is_plain(*row) && raw@.len() == row.bytes
                &&& p < row_count(row.ne@)
                &&& row_not_half(singles(raw@), p, row.ne@[0] as int)
                &&& rows_good(*row, raw@, first_rows(row_count(row.ne@)), p as int)
            },
            Err(_) => false,
        },
{
    let count: u64 = match row.checked_count() {
        None => {
            return Err(FileError::Overflow);
        },
        Some(n) => n,
    };
    let rows: u64 = if row.ne[0] == 0 {
        0
    } else {
        count / row.ne[0]
    };
    if rows > u32::MAX as u64 {
        return Err(FileError::Rows);
    }
    let mut idx: Vec<u32> = Vec::new();
    let mut i: u64 = 0;
    while i < rows
        invariant
            i <= rows <= u32::MAX,
            idx@.len() == i,
            forall|k: int| 0 <= k < i ==> #[trigger] idx@[k] == k,
        decreases rows - i,
    {
        idx.push(i as u32);
        i += 1;
    }
    assert(idx@ =~= first_rows(row_count(row.ne@)));
    proof {
        assert forall|k: int| 0 <= k < idx@.len() implies row_in(
            #[trigger] idx@[k],
            row.ne@[0] as int,
            product(row.ne@),
        ) by {
            lemma_row_inside(k, row.ne@[0] as int, count as int);
        }
    }
    widened_f16_bits(row, raw, idx.as_slice())
}

proof fn lemma_row_inside(k: int, width: int, count: int)
    requires
        0 < width,
        0 <= k < count / width,
        0 <= count,
    ensures
        k * width + width <= count,
{
    vstd::arithmetic::div_mod::lemma_fundamental_div_mod(count, width);
    assert((k + 1) * width <= (count / width) * width) by (nonlinear_arith)
        requires
            k + 1 <= count / width,
            0 < width,
    ;
    assert((k + 1) * width == k * width + width) by (nonlinear_arith);
    assert((count / width) * width == width * (count / width)) by (nonlinear_arith);
}

// ------------------------------------------------------------ top-k ids

/// The first position from `at` on of a value outside `0..n` or outside 32
/// signed bits.
pub open spec fn first_bad_id(v: Seq<i64>, n: u32, at: int) -> Option<int>
    decreases v.len() - at,
{
    if at < 0 || at >= v.len() {
        None
    } else if !(0 <= v[at] < n && v[at] <= i32::MAX) {
        Some(at)
    } else {
        first_bad_id(v, n, at + 1)
    }
}

/// A single holds an id in `0..n`: an integer in that range.
pub open spec fn holds_id(v: u32, n: u32) -> bool {
    bits::whole(v) is Some && 0 <= bits::whole(v)->0 < n
}

/// The first position from `at` on of a single that holds no id in `0..n`.
pub open spec fn first_bad_single(v: Seq<u32>, n: u32, at: int) -> Option<int>
    decreases v.len() - at,
{
    if at < 0 || at >= v.len() {
        None
    } else if !holds_id(v[at], n) {
        Some(at)
    } else {
        first_bad_single(v, n, at + 1)
    }
}

/// The id a single holds, in 32 signed bits.
pub open spec fn single_id(v: u32) -> int {
    if bits::whole(v)->0 > i32::MAX {
        i32::MAX as int
    } else {
        bits::whole(v)->0
    }
}

/// What the ids of an integer twin are, `row` the row they belong to.
pub open spec fn twin_ids(row: RefRow, v: Seq<i64>, n: u32) -> Result<Seq<i32>, FileError> {
    if !product_fits(row.ne@) || v.len() != product(row.ne@) {
        Err(FileError::Count)
    } else {
        match first_bad_id(v, n, 0) {
            Some(i) => Err(FileError::Id(i as usize)),
            None => Ok(v.map_values(|x: i64| x as i32)),
        }
    }
}

/// What the ids of a logical f32 file are.
pub open spec fn cast_ids(row: RefRow, raw: Seq<u8>, n: u32) -> Result<Seq<i32>, FileError> {
    if !four_fit(row.ne@) {
        Err(FileError::Overflow)
    } else if raw.len() != 4 * product(row.ne@) {
        Err(FileError::FileBytes)
    } else {
        match first_bad_single(singles(raw), n, 0) {
            Some(i) => Err(FileError::Id(i as usize)),
            None => Ok(singles(raw).map_values(|v: u32| single_id(v) as i32)),
        }
    }
}

/// What the top-k ids of a row are, `raw` the bytes of the file they are read
/// from: the exact logical integer twin where the set has integer twins at
/// all, else the logical f32 twin, each id cast to f32 by the dumper. Every id
/// must be an integer in `0..n`, which rules out any stride or cast mix-up.
pub open spec fn topk_read(man: RefManifest, row: RefRow, n: u32, raw: Seq<u8>) -> Result<
    Seq<i32>,
    FileError,
> {
    let at = first_key(
        keys(man.ints@),
        RowKey {
            name: row.name@,
            occurrence: row.occurrence,
            of: row.kind,
            layout: Layout::Logical,
        },
        0,
    );
    if row.logical != Some(1u8) {
        Err(FileError::NoLogical)
    } else if man.ints@.len() > 0 {
        match at {
            None => Err(FileError::NoTwin),
            Some(i) => match int_read(man.ints@[i], raw) {
                Err(e) => Err(e),
                Ok(v) => twin_ids(row, v, n),
            },
        }
    } else {
        cast_ids(row, raw, n)
    }
}

/// The name of the file that holds a row's top-k ids.
pub fn topk_file(man: &RefManifest, row: &RefRow) -> (r: Result<String, FileError>)
    requires
        man.wf(),
    ensures
        ({
            let at = first_key(
                keys(man.ints@),
                RowKey {
                    name: row.name@,
                    occurrence: row.occurrence,
                    of: row.kind,
                    layout: Layout::Logical,
                },
                0,
            );
            match r {
                Ok(name) => row.logical == Some(1u8) && name@ == (if man.ints@.len() > 0 {
                    man.ints@[at->0].file@
                } else {
                    file_name_of(
                        row.name@,
                        row.occurrence,
                        row.kind,
                        Layout::Logical,
                        FileElem::F32,
                    )
                }) && (man.ints@.len() > 0 ==> at is Some),
                Err(FileError::NoLogical) => row.logical != Some(1u8),
                Err(FileError::NoTwin) => row.logical == Some(1u8) && man.ints@.len() > 0 && at
                    is None,
                Err(_) => false,
            }
        }),
{
    let twin: bool = match row.logical {
        Some(l) => l == 1,
        None => false,
    };
    if !twin {
        return Err(FileError::NoLogical);
    }
    if man.ints.len() > 0 {
        match man.find_int_row(row.name.as_str(), row.occurrence, row.kind, Layout::Logical) {
            Err(_) => Err(FileError::NoTwin),
            Ok(int_row) => Ok(int_row.file.clone()),
        }
    } else {
        Ok(row.logical_file_name())
    }
}

/// The ids of an integer twin.
fn ids_of_twin(row: &RefRow, v: &[i64], n: u32) -> (r: Result<Vec<i32>, FileError>)
    ensures
        match r {
            Ok(ids) => twin_ids(*row, v@, n) == Ok::<Seq<i32>, FileError>(ids@),
            Err(e) => twin_ids(*row, v@, n) == Err::<Seq<i32>, FileError>(e),
        },
{
    match row.checked_count() {
        None => {
            return Err(FileError::Count);
        },
        Some(c) => {
            if v.len() as u64 != c {
                return Err(FileError::Count);
            }
        },
    }
    let mut out: Vec<i32> = Vec::new();
    let mut i: usize = 0;
    while i < v.len()
        invariant
            i <= v@.len(),
            product_fits(row.ne@) && v@.len() == product(row.ne@),
            first_bad_id(v@, n, 0) == first_bad_id(v@, n, i as int),
            out@ =~= v@.take(i as int).map_values(|x: i64| x as i32),
        decreases v@.len() - i,
    {
        let x: i64 = v[i];
        if !(0 <= x && x < n as i64 && x <= i32::MAX as i64) {
            return Err(FileError::Id(i));
        }
        out.push(x as i32);
        i += 1;
    }
    assert(v@.take(v@.len() as int) =~= v@);
    Ok(out)
}

/// The ids of a logical f32 file.
fn ids_of_singles(row: &RefRow, raw: &[u8], n: u32) -> (r: Result<Vec<i32>, FileError>)
    ensures
        match r {
            Ok(ids) => cast_ids(*row, raw@, n) == Ok::<Seq<i32>, FileError>(ids@),
            Err(e) => cast_ids(*row, raw@, n) == Err::<Seq<i32>, FileError>(e),
        },
{
    match four_per_element(row) {
        None => {
            return Err(FileError::Overflow);
        },
        Some(c) => {
            if raw.len() as u64 != c {
                return Err(FileError::FileBytes);
            }
        },
    }
    let v: Vec<u32> = singles_of(raw);
    let mut out: Vec<i32> = Vec::new();
    let mut i: usize = 0;
    while i < v.len()
        invariant
            i <= v@.len(),
            v@ == singles(raw@),
            four_fit(row.ne@) && raw@.len() == 4 * product(row.ne@),
            first_bad_single(v@, n, 0) == first_bad_single(v@, n, i as int),
            out@ =~= v@.take(i as int).map_values(|x: u32| single_id(x) as i32),
        decreases v@.len() - i,
    {
        match bits::id_below(v[i], n) {
            None => {
                return Err(FileError::Id(i));
            },
            Some(id) => {
                let id: i32 = if id > i32::MAX as u32 {
                    i32::MAX
                } else {
                    id as i32
                };
                assert(id == single_id(v@[i as int]));
                out.push(id);
            },
        }
        i += 1;
    }
    assert(v@.take(v@.len() as int) =~= v@);
    Ok(out)
}

/// The top-k row's ids from its logical twin: `ffn_moe_topk-L` is an i32 VIEW
/// of the argsort output whose plain file is the flat parent read (token 0's
/// ranking only), so the ids of every token live in the logical twin. `raw` is
/// the file [`topk_file`] names, `row` a row of `man`.
pub fn topk_ids_logical_within(
    man: &RefManifest,
    row: &RefRow,
    n_expert: u32,
    raw: &[u8],
) -> (r: Result<Vec<i32>, FileError>)
    requires
        man.wf(),
    ensures
        match r {
            Ok(ids) => topk_read(*man, *row, n_expert, raw@) == Ok::<Seq<i32>, FileError>(ids@),
            Err(e) => topk_read(*man, *row, n_expert, raw@) == Err::<Seq<i32>, FileError>(e),
        },
{
    let twin: bool = match row.logical {
        Some(l) => l == 1,
        None => false,
    };
    if !twin {
        return Err(FileError::NoLogical);
    }
    if man.ints.len() > 0 {
        match man.find_int_row(row.name.as_str(), row.occurrence, row.kind, Layout::Logical) {
            Err(_) => Err(FileError::NoTwin),
            Ok(int_row) => match ref_ints_of(int_row, raw) {
                Err(e) => Err(e),
                Ok(v) => ids_of_twin(row, v.as_slice(), n_expert),
            },
        }
    } else {
        ids_of_singles(row, raw, n_expert)
    }
}

/// The experts of the V2-Lite model's router.
pub const V2_LITE_EXPERTS: u32 = 64;

/// The experts the V2-Lite model's router uses for a token.
pub const V2_LITE_USED: usize = 6;

/// [`topk_ids_logical_within`] with every id below the V2-Lite model's expert
/// count.
pub fn topk_ids_logical(man: &RefManifest, row: &RefRow, raw: &[u8]) -> (r: Result<
    Vec<i32>,
    FileError,
>)
    requires
        man.wf(),
    ensures
        match r {
            Ok(ids) => topk_read(*man, *row, V2_LITE_EXPERTS, raw@) == Ok::<
                Seq<i32>,
                FileError,
            >(ids@),
            Err(e) => topk_read(*man, *row, V2_LITE_EXPERTS, raw@) == Err::<Seq<i32>, FileError>(e),
        },
{
    topk_ids_logical_within(man, row, V2_LITE_EXPERTS, raw)
}

// ------------------------------------------------------------ what a file gives back

/// A dump's singles are its bytes, four each and the low one first: so a tensor
/// that reads gives its file back, one value an element, every one finite.
pub proof fn law_a_tensor_is_its_files_bytes(row: RefRow, raw: Seq<u8>, v: Seq<u32>, k: int)
    requires
        plain_read(row, raw) == Ok::<Seq<u32>, FileError>(v) || logical_read(row, raw) == Ok::<
            Seq<u32>,
            FileError,
        >(v),
        0 <= k < v.len(),
    ensures
        v.len() == row.ne@[0] * row.ne@[1] * row.ne@[2] * row.ne@[3],
        raw.len() == 4 * v.len(),
        v[k] % 256 == raw[4 * k],
        v[k] / 256 % 256 == raw[4 * k + 1],
        v[k] / 65536 % 256 == raw[4 * k + 2],
        v[k] / 16777216 == raw[4 * k + 3],
        bits::finite(v[k]),
        row.ty@ == "f32"@,
{
    crate::gate::law_a_word_is_its_bytes(raw, k);
    bits::lemma_all_finite(singles(raw), 0);
}

/// What is written reads: a row of f32 whose shape counts the values, with the
/// bytes of finite ones, gives them; a non-finite one is named, the first of them.
pub proof fn law_a_written_tensor_reads(row: RefRow, v: Seq<u32>, k: int)
    requires
        row.ty@ == "f32"@,
        four_fit(row.ne@),
        product(row.ne@) == v.len(),
        row.bytes == 4 * v.len(),
        v.len() <= usize::MAX,
    ensures
        (forall|i: int| 0 <= i < v.len() ==> bits::finite(#[trigger] v[i])) ==> plain_read(
            row,
            crate::gate::le_bytes_of(v),
        ) == Ok::<Seq<u32>, FileError>(v),
        0 <= k < v.len() && !bits::finite(v[k]) && (forall|i: int|
            0 <= i < k ==> bits::finite(#[trigger] v[i])) ==> plain_read(
            row,
            crate::gate::le_bytes_of(v),
        ) == Err::<Seq<u32>, FileError>(FileError::NonFinite(k as usize)),
{
    let raw = crate::gate::le_bytes_of(v);
    if v.len() > 0 {
        crate::gate::law_words_read_back(v, 0);
    }
    assert forall|i: int| 0 <= i < v.len() implies word_at(raw, i) == #[trigger] v[i] by {
        crate::gate::law_words_read_back(v, i);
    }
    assert(singles(raw) =~= v);
    lemma_first_nonfinite(v, 0);
}

proof fn lemma_first_nonfinite(v: Seq<u32>, at: int)
    requires
        0 <= at <= v.len(),
    ensures
        match first_nonfinite(v, at) {
            Some(i) => at <= i < v.len() && !bits::finite(v[i]) && forall|k: int|
                at <= k < i ==> bits::finite(#[trigger] v[k]),
            None => forall|k: int| at <= k < v.len() ==> bits::finite(#[trigger] v[k]),
        },
    decreases v.len() - at,
{
    if at < v.len() && bits::finite(v[at]) {
        lemma_first_nonfinite(v, at + 1);
    }
}

/// A plain file is in logical order where the row says that it is contiguous, or,
/// saying nothing of it, is no view; a row with a logical twin is read from that.
pub proof fn law_a_view_is_read_from_its_twin(row: RefRow, raw: Seq<u8>)
    ensures
        row.contig == Some(1u8) ==> is_plain(row),
        row.contig == Some(0u8) ==> !is_plain(row),
        row.contig is None && row.op@ == "VIEW"@ ==> !is_plain(row),
        row.contig is None && row.op@ != "VIEW"@ ==> is_plain(row),
        row.logical != Some(1u8) && !is_plain(row) ==> logical_read(row, raw) == Err::<
            Seq<u32>,
            FileError,
        >(FileError::NotPlain),
        row.logical != Some(1u8) && is_plain(row) ==> logical_read(row, raw) == plain_read(
            row,
            raw,
        ),
{
}

/// An integer twin of 32 bits that reads gives its file back, four bytes a value,
/// the low one first and a negative value as its complement.
pub proof fn law_a_narrow_twin_is_its_files_bytes(row: IntRow, raw: Seq<u8>, v: Seq<i64>, k: int)
    requires
        int_read(row, raw) == Ok::<Seq<i64>, FileError>(v),
        row.twin == FileElem::I32,
        0 <= k < v.len(),
    ensures
        v.len() == row.count,
        raw.len() == 4 * v.len(),
        -0x8000_0000 <= v[k] < 0x8000_0000,
        (if v[k] < 0 {
            v[k] + 0x1_0000_0000
        } else {
            v[k] as int
        }) == raw[4 * k] + 256 * raw[4 * k + 1] + 65536 * raw[4 * k + 2] + 16777216 * raw[4 * k + 3],
{
    assert(raw.len() == row.count * 4);
    assert(v.len() == raw.len() / 4);
    assert(v[k] == int_at(raw, FileElem::I32, k) as i64);
    lemma_i32_back(raw, k);
}

/// An integer twin of 64 bits that reads gives its file back, eight bytes a value.
pub proof fn law_a_wide_twin_is_its_files_bytes(row: IntRow, raw: Seq<u8>, v: Seq<i64>, k: int)
    requires
        int_read(row, raw) == Ok::<Seq<i64>, FileError>(v),
        row.twin == FileElem::I64,
        0 <= k < v.len(),
    ensures
        v.len() == row.count,
        raw.len() == 8 * v.len(),
        ({
            let low = raw[8 * k] + 256 * raw[8 * k + 1] + 65536 * raw[8 * k + 2] + 16777216 * raw[8
                * k + 3];
            let high = raw[8 * k + 4] + 256 * raw[8 * k + 5] + 65536 * raw[8 * k + 6] + 16777216
                * raw[8 * k + 7];
            (if v[k] < 0 {
                v[k] + 0x1_0000_0000_0000_0000
            } else {
                v[k] as int
            }) == low + 0x1_0000_0000 * high
        }),
{
    assert(raw.len() == row.count * 8);
    assert(v.len() == raw.len() / 8);
    assert(v[k] == int_at(raw, FileElem::I64, k) as i64);
    lemma_i64_back(raw, k);
}

/// The sum and the greatest magnitude of an integer twin that reads are its row's,
/// the sum wrapped to 64 bits, and its file has the name its row gives it.
pub proof fn law_an_integer_twin_is_checked(row: IntRow, raw: Seq<u8>, v: Seq<i64>, k: int)
    requires
        int_read(row, raw) == Ok::<Seq<i64>, FileError>(v),
        0 <= k < v.len(),
    ensures
        v[k] <= row.absmax,
        -v[k] <= row.absmax,
        exists|j: int|
            0 <= j < v.len() && (#[trigger] v[j] == row.absmax || -v[j] == row.absmax),
        (total(v) - row.sum) % 0x1_0000_0000_0000_0000 == 0,
        row.file@ == file_name_of(row.name@, row.occurrence, row.of, row.layout, row.twin),
{
    lemma_largest(v, k);
    lemma_largest_reached(v);
    lemma_wrapped(total(v));
}

proof fn lemma_wrapped(t: int)
    ensures
        (t - signed64(t % 0x1_0000_0000_0000_0000)) % 0x1_0000_0000_0000_0000 == 0,
        -0x8000_0000_0000_0000 <= signed64(t % 0x1_0000_0000_0000_0000) < 0x8000_0000_0000_0000,
{
}

proof fn lemma_i32_back(raw: Seq<u8>, k: int)
    requires
        0 <= k,
        4 * k + 4 <= raw.len(),
    ensures
        -0x8000_0000 <= int_at(raw, FileElem::I32, k) < 0x8000_0000,
        ({
            let v = int_at(raw, FileElem::I32, k);
            let u = if v < 0 {
                v + 0x1_0000_0000
            } else {
                v
            };
            u == raw[4 * k] + 256 * raw[4 * k + 1] + 65536 * raw[4 * k + 2] + 16777216 * raw[4 * k
                + 3]
        }),
{
}

proof fn lemma_i64_back(raw: Seq<u8>, k: int)
    requires
        0 <= k,
        8 * k + 8 <= raw.len(),
    ensures
        -0x8000_0000_0000_0000 <= int_at(raw, FileElem::I64, k) < 0x8000_0000_0000_0000,
        ({
            let v = int_at(raw, FileElem::I64, k);
            let u = if v < 0 {
                v + 0x1_0000_0000_0000_0000
            } else {
                v
            };
            let low = raw[8 * k] + 256 * raw[8 * k + 1] + 65536 * raw[8 * k + 2] + 16777216 * raw[8
                * k + 3];
            let high = raw[8 * k + 4] + 256 * raw[8 * k + 5] + 65536 * raw[8 * k + 6] + 16777216
                * raw[8 * k + 7];
            u == low + 0x1_0000_0000 * high
        }),
{
    assert(4 * (2 * k) == 8 * k && 4 * (2 * k + 1) == 8 * k + 4);
    assert(word_at(raw, 2 * k) == raw[8 * k] + 256 * raw[8 * k + 1] + 65536 * raw[8 * k + 2]
        + 16777216 * raw[8 * k + 3]);
    assert(word_at(raw, 2 * k + 1) == raw[8 * k + 4] + 256 * raw[8 * k + 5] + 65536 * raw[8 * k + 6]
        + 16777216 * raw[8 * k + 7]);
}

proof fn lemma_largest(v: Seq<i64>, k: int)
    requires
        0 <= k < v.len(),
    ensures
        v[k] <= largest(v),
        -v[k] <= largest(v),
    decreases v.len(),
{
    if k < v.len() - 1 {
        lemma_largest(v.drop_last(), k);
    }
}

proof fn lemma_largest_reached(v: Seq<i64>)
    requires
        v.len() > 0,
    ensures
        exists|j: int| 0 <= j < v.len() && (#[trigger] v[j] == largest(v) || -v[j] == largest(v)),
    decreases v.len(),
{
    let n = v.len() - 1;
    if v.len() == 1 {
        reveal_with_fuel(largest, 2);
        assert(v.drop_last() =~= Seq::<i64>::empty());
        assert(v[0] == largest(v) || -v[0] == largest(v));
    } else {
        let w = v.drop_last();
        lemma_largest_reached(w);
        let j = choose|j: int|
            0 <= j < w.len() && (#[trigger] w[j] == largest(w) || -w[j] == largest(w));
        if magnitude(v.last()) > largest(w) {
            assert(v[n] == largest(v) || -v[n] == largest(v));
        } else {
            assert(v[j] == largest(v) || -v[j] == largest(v));
        }
    }
}

/// The sum of two lists is the sum of their sums.
pub proof fn law_sums_add_up(a: Seq<i64>, b: Seq<i64>, x: i64)
    ensures
        total(a + b) == total(a) + total(b),
        total(seq![x]) == x,
    decreases b.len(),
{
    assert(seq![x].drop_last() =~= Seq::<i64>::empty());
    reveal_with_fuel(total, 2);
    if b.len() == 0 {
        assert(a + b =~= a);
    } else {
        law_sums_add_up(a, b.drop_last(), x);
        assert((a + b).drop_last() =~= a + b.drop_last());
        assert((a + b).last() == b.last());
    }
}

/// A mask's halves widen to its singles, each zero or minus infinity.
pub proof fn law_a_mask_widens_to_its_file(row: RefRow, raw: Seq<u8>, m: Seq<u16>, k: int)
    requires
        mask_read(row, raw) == Ok::<Seq<u16>, FileError>(m),
        0 <= k < m.len(),
    ensures
        m.len() == singles(raw).len(),
        raw.len() == 4 * m.len(),
        widened(m[k]) == singles(raw)[k],
        m[k] == 0 || m[k] == 0xfc00,
{
    lemma_all_mask(singles(raw), 0, k);
}

proof fn lemma_all_mask(v: Seq<u32>, at: int, k: int)
    requires
        0 <= at <= k < v.len(),
        first_not_mask(v, at) is None,
    ensures
        v[k] == 0 || v[k] == 0xff80_0000,
    decreases v.len() - at,
{
    if at < k {
        lemma_all_mask(v, at + 1, k);
    }
}

/// The ids of a selection are below the experts, one an element of the row, and
/// the values of its file: an integer twin's where the set has twins, else the
/// whole numbers that the singles stand for.
pub proof fn law_a_selections_ids(man: RefManifest, row: RefRow, n: u32, raw: Seq<u8>, k: int)
    requires
        topk_read(man, row, n, raw) is Ok,
        0 <= k < topk_read(man, row, n, raw)->Ok_0.len(),
        n <= i32::MAX,
    ensures
        ({
            let ids = topk_read(man, row, n, raw)->Ok_0;
            &&& row.logical == Some(1u8)
            &&& ids.len() == product(row.ne@)
            &&& 0 <= ids[k] < n
            &&& man.ints@.len() == 0 ==> bits::whole(singles(raw)[k]) == Some(ids[k] as int)
            &&& man.ints@.len() > 0 ==> exists|i: int|
                0 <= i < man.ints@.len() && int_read(#[trigger] man.ints@[i], raw) is Ok && int_read(
                    man.ints@[i],
                    raw,
                )->Ok_0[k] == ids[k] && man.ints@[i].name@ == row.name@ && man.ints@[i].occurrence
                    == row.occurrence && man.ints@[i].of == row.kind && man.ints@[i].layout
                    == Layout::Logical
        }),
{
    if man.ints@.len() > 0 {
        let key = RowKey {
            name: row.name@,
            occurrence: row.occurrence,
            of: row.kind,
            layout: Layout::Logical,
        };
        crate::index::lemma_first_key(keys(man.ints@), key, 0);
        let i = first_key(keys(man.ints@), key, 0)->0;
        let v = int_read(man.ints@[i], raw)->Ok_0;
        lemma_good_twin(v, n, 0, k);
        assert(keys(man.ints@)[i] == crate::index::Keyed::key(&man.ints@[i]));
        assert(int_read(man.ints@[i], raw) is Ok);
    } else {
        lemma_good_single(singles(raw), n, 0, k);
    }
}

proof fn lemma_good_twin(v: Seq<i64>, n: u32, at: int, k: int)
    requires
        0 <= at <= k < v.len(),
        first_bad_id(v, n, at) is None,
    ensures
        0 <= v[k] < n && v[k] <= i32::MAX,
    decreases v.len() - at,
{
    if at < k {
        lemma_good_twin(v, n, at + 1, k);
    }
}

proof fn lemma_good_single(v: Seq<u32>, n: u32, at: int, k: int)
    requires
        0 <= at <= k < v.len(),
        first_bad_single(v, n, at) is None,
    ensures
        holds_id(v[k], n),
    decreases v.len() - at,
{
    if at < k {
        lemma_good_single(v, n, at + 1, k);
    }
}

/// A row of halves written wide is one single for each of its elements: its file,
/// at its length, reads as that many.
pub proof fn law_a_widened_row_has_a_single_each(row: RefRow, raw: Seq<u8>)
    requires
        is_widened(row),
        raw.len() == row.bytes,
    ensures
        singles(raw).len() == product(row.ne@),
        row.ty@ == "f16"@,
{
}

} // verus!
