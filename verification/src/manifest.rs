//! A dump set's MANIFEST.tsv: its header lines and every row the dumper
//! writes, by kind.
//!
//! Header lines start with `#`; data rows are tab-separated, the kind first:
//! `tensor`/`input name occurrence type ne0 ne1 ne2 ne3 bytes sum op` with
//! four optional trailing fields `contig logical src0 src1` (sets written
//! before those columns carry the 11-field width), `int name occurrence of
//! type twin layout count bytes sum absmax file`, and `skip`/`skip-input name
//! occurrence type reason`. Names may contain spaces, so fields are split on
//! tabs only. A row of any other kind or width is an error naming its line,
//! and so is a manifest with no `tensor` row.
use crate::naming::dump_file_name;
use crate::naming::file_name_of;
use crate::naming::FileElem;
use crate::naming::Layout;
use crate::naming::RowKind;
use crate::text;
use crate::text::id_list;
use crate::text::is_float_text;
use crate::text::nats;
use crate::text::number;
use vstd::prelude::*;

verus! {

// ------------------------------------------------------------ errors

/// The header keys a manifest line may give once.
#[derive(Clone, Copy, Debug, PartialEq, Eq, Structural)]
pub enum Key {
    Arch,
    Build,
    Complete,
    Tokens,
    TokensFile,
    TokensFileSha256,
    TokensCount,
    ModelFile,
    Flags,
    Prefill,
    DecodePos,
    StateInputs,
    FusedIdxTopk,
}

/// What is wrong with one line of a manifest.
#[derive(Clone, Copy, Debug, PartialEq, Eq, Structural)]
pub enum LineError {
    /// The value of this header key does not parse.
    Value(Key),
    /// The line gives this header key a second time.
    Repeated(Key),
    /// The row's kind is none the dumper writes.
    UnknownKind,
    /// The row has not the number of fields its kind has.
    Width,
    /// This field of the row does not parse.
    Field(usize),
}

/// Why a text is no manifest.
#[derive(Clone, Copy, Debug, PartialEq, Eq, Structural)]
pub enum ManifestError {
    /// What is wrong with a line, lines counted from 1.
    Line(usize, LineError),
    /// No line is a `tensor` row.
    NoTensorRows,
}

// ------------------------------------------------------------ rows

/// An optional string's characters.
pub open spec fn opt_chars(s: Option<String>) -> Option<Seq<char>> {
    match s {
        Some(t) => Some(t@),
        None => None,
    }
}

/// What a `tensor` or `input` row says.
pub ghost struct RowView {
    pub kind: RowKind,
    pub name: Seq<char>,
    pub occurrence: u32,
    pub ty: Seq<char>,
    pub ne: Seq<u64>,
    pub bytes: u64,
    pub sum: Seq<char>,
    pub op: Seq<char>,
    pub contig: Option<u8>,
    pub logical: Option<u8>,
    pub src0: Option<Seq<char>>,
    pub src1: Option<Seq<char>>,
}

/// One `tensor` or `input` row of a dump set's manifest. `ne` is ne0..ne3 as
/// written: ne0 is the contiguous dimension; `sum` is the dumper's element sum
/// as the row writes it, usable to prove a VIEW row carries the same bytes as
/// its base. The four trailing fields are the later columns (`contig`,
/// `logical`, `src0`, `src1`); `None` on a set written before they existed.
#[derive(Debug, Clone)]
pub struct RefRow {
    pub kind: RowKind,
    pub name: String,
    pub occurrence: u32,
    pub ty: String,
    pub ne: [u64; 4],
    pub bytes: u64,
    pub sum: String,
    pub op: String,
    pub contig: Option<u8>,
    pub logical: Option<u8>,
    pub src0: Option<String>,
    pub src1: Option<String>,
}

impl View for RefRow {
    type V = RowView;

    open spec fn view(&self) -> RowView {
        RowView {
            kind: self.kind,
            name: self.name@,
            occurrence: self.occurrence,
            ty: self.ty@,
            ne: self.ne@,
            bytes: self.bytes,
            sum: self.sum@,
            op: self.op@,
            contig: self.contig,
            logical: self.logical,
            src0: opt_chars(self.src0),
            src1: opt_chars(self.src1),
        }
    }
}

/// The product of the four counts.
pub open spec fn product(ne: Seq<u64>) -> int {
    ne[0] * ne[1] * ne[2] * ne[3]
}

/// The counts multiply, in order, without leaving 64 bits.
pub open spec fn product_fits(ne: Seq<u64>) -> bool {
    &&& ne[0] * ne[1] <= u64::MAX
    &&& ne[0] * ne[1] * ne[2] <= u64::MAX
    &&& ne[0] * ne[1] * ne[2] * ne[3] <= u64::MAX
}

/// A row is not of the type, dims or op a reader wants.
#[derive(Clone, Copy, Debug, PartialEq, Eq, Structural)]
pub struct RowMismatch;

impl RefRow {
    /// Product of the four ne counts (elements, = bytes/4 for an f32 row).
    pub fn count(&self) -> (r: u64)
        requires
            product_fits(self.ne@),
        ensures
            r == product(self.ne@),
    {
        self.ne[0] * self.ne[1] * self.ne[2] * self.ne[3]
    }

    /// The number of elements, where 64 bits hold it.
    pub fn checked_count(&self) -> (r: Option<u64>)
        ensures
            match r {
                Some(n) => product_fits(self.ne@) && n == product(self.ne@),
                None => !product_fits(self.ne@),
            },
    {
        match self.ne[0].checked_mul(self.ne[1]) {
            None => None,
            Some(a) => match a.checked_mul(self.ne[2]) {
                None => None,
                Some(b) => b.checked_mul(self.ne[3]),
            },
        }
    }

    /// The plain file's name ([`dump_file_name`]): the flat f32 read.
    pub fn file_name(&self) -> (r: String)
        ensures
            r@ == file_name_of(
                self.name@,
                self.occurrence,
                self.kind,
                Layout::Flat,
                FileElem::F32,
            ),
    {
        dump_file_name(
            self.name.as_str(),
            self.occurrence,
            self.kind,
            Layout::Flat,
            FileElem::F32,
        )
    }

    /// The logical twin's file name, a file that exists when `logical` is
    /// `Some(1)`.
    pub fn logical_file_name(&self) -> (r: String)
        ensures
            r@ == file_name_of(
                self.name@,
                self.occurrence,
                self.kind,
                Layout::Logical,
                FileElem::F32,
            ),
    {
        dump_file_name(
            self.name.as_str(),
            self.occurrence,
            self.kind,
            Layout::Logical,
            FileElem::F32,
        )
    }

    /// Proves this row's type, dims and op: the chain check every consumer
    /// runs before trusting a tensor (`op` = what produced it). `op = "in"`
    /// only checks type and dims (an input's op varies).
    pub fn expect(&self, ty: &str, ne: [u64; 4], op: &str) -> (r: Result<(), RowMismatch>)
        ensures
            r is Ok <==> self.ty@ == ty@ && self.ne@ == ne@ && (op@ == "in"@ || self.op@ == op@),
    {
        let same_ne: bool = self.ne[0] == ne[0] && self.ne[1] == ne[1] && self.ne[2] == ne[2]
            && self.ne[3] == ne[3];
        assert(same_ne <==> self.ne@ =~= ne@);
        if text::same_str(self.ty.as_str(), ty) && same_ne && (text::same_str(op, "in")
            || text::same_str(self.op.as_str(), op)) {
            Ok(())
        } else {
            Err(RowMismatch)
        }
    }
}

/// What an `int` row says.
pub ghost struct IntView {
    pub name: Seq<char>,
    pub occurrence: u32,
    pub of: RowKind,
    pub ty: Seq<char>,
    pub twin: FileElem,
    pub layout: Layout,
    pub count: u64,
    pub bytes: u64,
    pub sum: i64,
    pub absmax: u64,
    pub file: Seq<char>,
}

/// One `int` row: the lossless twin of an integer tensor's f32 file of the
/// same layout, raw little-endian in the same element order. `sum` is the
/// exact element sum (wrapping 64-bit, printed signed), `absmax` the largest
/// magnitude, `file` the name the dumper wrote.
#[derive(Debug, Clone)]
pub struct IntRow {
    pub name: String,
    pub occurrence: u32,
    /// The kind of the row this file twins.
    pub of: RowKind,
    /// The twinned tensor's ggml type (`i8`, `i16`, `i32` or `i64`).
    pub ty: String,
    /// `I32` (i8, i16 and i32 widened) or `I64`; the parser admits no `F32`.
    pub twin: FileElem,
    pub layout: Layout,
    pub count: u64,
    pub bytes: u64,
    pub sum: i64,
    pub absmax: u64,
    pub file: String,
}

impl View for IntRow {
    type V = IntView;

    open spec fn view(&self) -> IntView {
        IntView {
            name: self.name@,
            occurrence: self.occurrence,
            of: self.of,
            ty: self.ty@,
            twin: self.twin,
            layout: self.layout,
            count: self.count,
            bytes: self.bytes,
            sum: self.sum,
            absmax: self.absmax,
            file: self.file@,
        }
    }
}

impl IntRow {
    /// `int <of> <name>/<occurrence> <layout> (<file>)`: how errors name a row.
    pub fn describe(&self) -> (r: String)
        ensures
            r@ == "int "@ + self.of.spelling() + " "@ + self.name@ + "/"@ + text::decimal(
                self.occurrence as nat,
            ) + " "@ + self.layout.spelling() + " ("@ + self.file@ + ")"@,
    {
        let mut out: Vec<char> = text::chars_of("int ");
        text::push_str(&mut out, self.of.as_str());
        text::push_str(&mut out, " ");
        text::push_str(&mut out, self.name.as_str());
        text::push_str(&mut out, "/");
        text::push_decimal(&mut out, self.occurrence as u64);
        text::push_str(&mut out, " ");
        text::push_str(&mut out, self.layout.as_str());
        text::push_str(&mut out, " (");
        text::push_str(&mut out, self.file.as_str());
        text::push_str(&mut out, ")");
        text::string_of(out.as_slice())
    }
}

/// The greatest 64-bit number.
pub open spec fn max64() -> nat {
    u64::MAX as nat
}

/// The greatest 32-bit number.
pub open spec fn max32() -> nat {
    u32::MAX as nat
}

/// What the fields of a `tensor` or `input` row say, the kind in field 0: 11
/// or 15 fields, and the first field that does not parse is the error.
pub open spec fn row_of(kind: RowKind, f: Seq<Seq<char>>) -> Result<RowView, LineError> {
    if f.len() != 11 && f.len() != 15 {
        Err(LineError::Width)
    } else if number(f[2], max32()) is None {
        Err(LineError::Field(2))
    } else if number(f[4], max64()) is None {
        Err(LineError::Field(4))
    } else if number(f[5], max64()) is None {
        Err(LineError::Field(5))
    } else if number(f[6], max64()) is None {
        Err(LineError::Field(6))
    } else if number(f[7], max64()) is None {
        Err(LineError::Field(7))
    } else if number(f[8], max64()) is None {
        Err(LineError::Field(8))
    } else if !is_float_text(f[9]) {
        Err(LineError::Field(9))
    } else if f.len() == 15 && number(f[11], 255) is None {
        Err(LineError::Field(11))
    } else if f.len() == 15 && number(f[12], 255) is None {
        Err(LineError::Field(12))
    } else {
        Ok(
            RowView {
                kind,
                name: f[1],
                occurrence: number(f[2], max32())->0 as u32,
                ty: f[3],
                ne: seq![
                    number(f[4], max64())->0 as u64,
                    number(f[5], max64())->0 as u64,
                    number(f[6], max64())->0 as u64,
                    number(f[7], max64())->0 as u64,
                ],
                bytes: number(f[8], max64())->0 as u64,
                sum: f[9],
                op: f[10],
                contig: if f.len() == 15 {
                    Some(number(f[11], 255)->0 as u8)
                } else {
                    None
                },
                logical: if f.len() == 15 {
                    Some(number(f[12], 255)->0 as u8)
                } else {
                    None
                },
                src0: if f.len() == 15 {
                    Some(f[13])
                } else {
                    None
                },
                src1: if f.len() == 15 {
                    Some(f[14])
                } else {
                    None
                },
            },
        )
    }
}

/// What the fields of an `int` row say: 12 fields, the spelled columns read
/// before the numbers.
pub open spec fn int_row_of(f: Seq<Seq<char>>) -> Result<IntView, LineError> {
    if f.len() != 12 {
        Err(LineError::Width)
    } else if f[3] != "tensor"@ && f[3] != "input"@ {
        Err(LineError::Field(3))
    } else if f[5] != "i32"@ && f[5] != "i64"@ {
        Err(LineError::Field(5))
    } else if f[6] != "flat"@ && f[6] != "logical"@ {
        Err(LineError::Field(6))
    } else if number(f[2], max32()) is None {
        Err(LineError::Field(2))
    } else if number(f[7], max64()) is None {
        Err(LineError::Field(7))
    } else if number(f[8], max64()) is None {
        Err(LineError::Field(8))
    } else if text::integer(f[9]) is None {
        Err(LineError::Field(9))
    } else if number(f[10], max64()) is None {
        Err(LineError::Field(10))
    } else {
        Ok(
            IntView {
                name: f[1],
                occurrence: number(f[2], max32())->0 as u32,
                of: if f[3] == "tensor"@ {
                    RowKind::Tensor
                } else {
                    RowKind::Input
                },
                ty: f[4],
                twin: if f[5] == "i32"@ {
                    FileElem::I32
                } else {
                    FileElem::I64
                },
                layout: if f[6] == "flat"@ {
                    Layout::Flat
                } else {
                    Layout::Logical
                },
                count: number(f[7], max64())->0 as u64,
                bytes: number(f[8], max64())->0 as u64,
                sum: text::integer(f[9])->0 as i64,
                absmax: number(f[10], max64())->0 as u64,
                file: f[11],
            },
        )
    }
}

/// A field as a string.
fn field(f: &Vec<Vec<char>>, i: usize) -> (r: String)
    requires
        i < f@.len(),
    ensures
        r@ == text::pieces(f@)[i as int],
{
    text::string_of(f[i].as_slice())
}

/// A field's number, at most `max`.
fn field_number(f: &Vec<Vec<char>>, i: usize, max: u64) -> (r: Result<u64, LineError>)
    requires
        i < f@.len(),
    ensures
        match r {
            Ok(n) => number(text::pieces(f@)[i as int], max as nat) == Some(n as nat) && n <= max,
            Err(e) => number(text::pieces(f@)[i as int], max as nat) is None && e
                == LineError::Field(i),
        },
{
    match text::parse_number(f[i].as_slice(), max) {
        Some(n) => Ok(n),
        None => Err(LineError::Field(i)),
    }
}

/// A `tensor` or `input` row, 11 or 15 fields.
pub(crate) fn parse_ref_row(kind: RowKind, f: &Vec<Vec<char>>) -> (r: Result<RefRow, LineError>)
    ensures
        match r {
            Ok(row) => row_of(kind, text::pieces(f@)) == Ok::<RowView, LineError>(row@),
            Err(e) => row_of(kind, text::pieces(f@)) == Err::<RowView, LineError>(e),
        },
{
    if f.len() != 11 && f.len() != 15 {
        return Err(LineError::Width);
    }
    let ghost t = text::pieces(f@);
    let occurrence: u64 = field_number(f, 2, u32::MAX as u64)?;
    let ne0: u64 = field_number(f, 4, u64::MAX)?;
    let ne1: u64 = field_number(f, 5, u64::MAX)?;
    let ne2: u64 = field_number(f, 6, u64::MAX)?;
    let ne3: u64 = field_number(f, 7, u64::MAX)?;
    let bytes: u64 = field_number(f, 8, u64::MAX)?;
    if !text::float_text(f[9].as_slice()) {
        return Err(LineError::Field(9));
    }
    let full: bool = f.len() == 15;
    let mut contig: Option<u8> = None;
    let mut logical: Option<u8> = None;
    let mut src0: Option<String> = None;
    let mut src1: Option<String> = None;
    if full {
        let c: u64 = field_number(f, 11, 255)?;
        let l: u64 = field_number(f, 12, 255)?;
        contig = Some(c as u8);
        logical = Some(l as u8);
        src0 = Some(field(f, 13));
        src1 = Some(field(f, 14));
    }
    let row: RefRow = RefRow {
        kind,
        name: field(f, 1),
        occurrence: occurrence as u32,
        ty: field(f, 3),
        ne: [ne0, ne1, ne2, ne3],
        bytes,
        sum: field(f, 9),
        op: field(f, 10),
        contig,
        logical,
        src0,
        src1,
    };
    assert(row@.ne =~= seq![ne0, ne1, ne2, ne3]);
    Ok(row)
}

/// An `int` row, 12 fields.
pub(crate) fn parse_int_row(f: &Vec<Vec<char>>) -> (r: Result<IntRow, LineError>)
    ensures
        match r {
            Ok(row) => int_row_of(text::pieces(f@)) == Ok::<IntView, LineError>(row@),
            Err(e) => int_row_of(text::pieces(f@)) == Err::<IntView, LineError>(e),
        },
{
    if f.len() != 12 {
        return Err(LineError::Width);
    }
    let ghost t = text::pieces(f@);
    proof {
        reveal_strlit("tensor");
        reveal_strlit("input");
        reveal_strlit("i32");
        reveal_strlit("i64");
        reveal_strlit("flat");
        reveal_strlit("logical");
        assert("i32"@[1] != "i64"@[1]);
    }
    let of: RowKind = if text::is(f[3].as_slice(), "tensor") {
        RowKind::Tensor
    } else if text::is(f[3].as_slice(), "input") {
        RowKind::Input
    } else {
        return Err(LineError::Field(3));
    };
    let twin: FileElem = if text::is(f[5].as_slice(), "i32") {
        FileElem::I32
    } else if text::is(f[5].as_slice(), "i64") {
        FileElem::I64
    } else {
        return Err(LineError::Field(5));
    };
    let layout: Layout = if text::is(f[6].as_slice(), "flat") {
        Layout::Flat
    } else if text::is(f[6].as_slice(), "logical") {
        Layout::Logical
    } else {
        return Err(LineError::Field(6));
    };
    let occurrence: u64 = field_number(f, 2, u32::MAX as u64)?;
    let count: u64 = field_number(f, 7, u64::MAX)?;
    let bytes: u64 = field_number(f, 8, u64::MAX)?;
    let sum: i64 = match text::parse_integer(f[9].as_slice()) {
        Some(v) => v,
        None => {
            return Err(LineError::Field(9));
        },
    };
    let absmax: u64 = field_number(f, 10, u64::MAX)?;
    Ok(
        IntRow {
            name: field(f, 1),
            occurrence: occurrence as u32,
            of,
            ty: field(f, 4),
            twin,
            layout,
            count,
            bytes,
            sum,
            absmax,
            file: field(f, 11),
        },
    )
}

// ------------------------------------------------------------ header

/// What a set's header lines say.
pub ghost struct HeadView {
    pub arch: Option<Seq<char>>,
    pub build: Option<Seq<char>>,
    pub complete: Option<(u64, u64)>,
    pub tokens: Option<Seq<nat>>,
    pub tokens_file: Option<Seq<char>>,
    pub tokens_file_sha256: Option<Seq<char>>,
    pub tokens_count: Option<u64>,
    pub model_file: Option<Seq<char>>,
    pub flags: Option<Seq<char>>,
    pub ctx: Option<u64>,
    pub threads: Option<u64>,
    pub prefill: Option<u32>,
    pub decode_pos: Option<u32>,
    pub state_inputs: Option<Seq<char>>,
    pub fused_idx_topk: Option<bool>,
    pub other: Seq<Seq<char>>,
}

/// The header lines of a set. A line the set does not carry leaves its field
/// `None`.
#[derive(Debug, Clone)]
pub struct RefHeader {
    /// `# arch`, the model's `general.architecture`. `None` on a set dumped
    /// before the dumper wrote the line.
    pub arch: Option<String>,
    /// `# build`, the ik build that wrote the set.
    pub build: Option<String>,
    /// `# complete <written> <skipped>`: the node rows written and skipped.
    /// `None` when the trailer is missing: the dump that wrote the set died.
    pub complete: Option<(u64, u64)>,
    /// `# tokens`: the ids of the whole sequence the set was dumped for.
    pub tokens: Option<Vec<u32>>,
    /// `# tokens_file`: the file the dumper read the tokens from.
    pub tokens_file: Option<String>,
    /// `# tokens_file_sha256`: that file's digest.
    pub tokens_file_sha256: Option<String>,
    /// `# tokens_count`: how many of the file's tokens the dumper took.
    pub tokens_count: Option<u64>,
    /// `# model_file`: the name of the model file the set was dumped from.
    pub model_file: Option<String>,
    /// `# flags`: the dumper's command line.
    pub flags: Option<String>,
    /// `-c` in `# flags`: the context the dumper ran at.
    pub ctx: Option<u64>,
    /// `-t` in `# flags`: the threads the dumper ran with.
    pub threads: Option<u64>,
    /// `# prefill`: in a decode-step set, the tokens run before the step.
    pub prefill: Option<u32>,
    /// `# decode_pos`: in a decode-step set, the step's position.
    pub decode_pos: Option<u32>,
    /// `# state_inputs`: in a decode-step set, the dumper's note that the
    /// persistent leaves the step reads are input rows, written at their first
    /// reader.
    pub state_inputs: Option<String>,
    /// `# fused_idx_topk`: whether the indexer's scores and top-k ran as one
    /// op (`1`) or as nodes of their own (`0`).
    pub fused_idx_topk: Option<bool>,
    /// Every other `#` line, verbatim and in file order: the dumper's title,
    /// `# model`, the column lines, and any line not known here.
    pub other: Vec<String>,
}

impl View for RefHeader {
    type V = HeadView;

    open spec fn view(&self) -> HeadView {
        HeadView {
            arch: opt_chars(self.arch),
            build: opt_chars(self.build),
            complete: self.complete,
            tokens: match self.tokens {
                Some(v) => Some(nats(v@)),
                None => None,
            },
            tokens_file: opt_chars(self.tokens_file),
            tokens_file_sha256: opt_chars(self.tokens_file_sha256),
            tokens_count: self.tokens_count,
            model_file: opt_chars(self.model_file),
            flags: opt_chars(self.flags),
            ctx: self.ctx,
            threads: self.threads,
            prefill: self.prefill,
            decode_pos: self.decode_pos,
            state_inputs: opt_chars(self.state_inputs),
            fused_idx_topk: self.fused_idx_topk,
            other: text::strings(self.other@),
        }
    }
}

/// The header of no lines.
pub open spec fn empty_head() -> HeadView {
    HeadView {
        arch: None,
        build: None,
        complete: None,
        tokens: None,
        tokens_file: None,
        tokens_file_sha256: None,
        tokens_count: None,
        model_file: None,
        flags: None,
        ctx: None,
        threads: None,
        prefill: None,
        decode_pos: None,
        state_inputs: None,
        fused_idx_topk: None,
        other: seq![],
    }
}

/// The key and value of a `# <key>\t<value>` line.
pub open spec fn key_and_value(line: Seq<char>) -> Option<(Seq<char>, Seq<char>)> {
    if text::opens_with(line, "# "@) {
        text::cut_once(line.skip("# "@.len() as int), '\t')
    } else {
        None
    }
}

/// The position of the first word that is `flag`.
pub open spec fn word_index(words: Seq<Seq<char>>, flag: Seq<char>, at: int) -> Option<int>
    decreases words.len() - at,
{
    if at < 0 || at >= words.len() {
        None
    } else if words[at] == flag {
        Some(at)
    } else {
        word_index(words, flag, at + 1)
    }
}

/// The number after the first `flag` in a command line: `Some(None)` when the
/// line has no such flag, `None` when what follows it is no number.
pub open spec fn flag_number(line: Seq<char>, flag: Seq<char>) -> Option<Option<u64>> {
    let words = text::words(line);
    match word_index(words, flag, 0) {
        None => Some(None),
        Some(i) => if i + 1 < words.len() && number(words[i + 1], max64()) is Some {
            Some(Some(number(words[i + 1], max64())->0 as u64))
        } else {
            None
        },
    }
}

/// Two tab-separated counts.
pub open spec fn two_counts(v: Seq<char>) -> Option<(u64, u64)> {
    match text::cut_once(v, '\t') {
        None => None,
        Some(p) => match (number(p.0, max64()), number(p.1, max64())) {
            (Some(a), Some(b)) => Some((a as u64, b as u64)),
            _ => None,
        },
    }
}

/// A number of at most 32 bits.
pub open spec fn narrow(v: Seq<char>) -> Option<u32> {
    match number(v, max32()) {
        Some(n) => Some(n as u32),
        None => None,
    }
}

/// A number of at most 64 bits.
pub open spec fn wide(v: Seq<char>) -> Option<u64> {
    match number(v, max64()) {
        Some(n) => Some(n as u64),
        None => None,
    }
}

/// `0` or `1`.
pub open spec fn switch(v: Seq<char>) -> Option<bool> {
    if v == "0"@ {
        Some(false)
    } else if v == "1"@ {
        Some(true)
    } else {
        None
    }
}

/// The header after one more header line. A line of a known key fills its
/// field: a value that does not parse is the key's value error, a key given
/// twice a repetition. Every other line is kept.
pub open spec fn header_after(h: HeadView, line: Seq<char>) -> Result<HeadView, LineError> {
    match key_and_value(line) {
        None => Ok(HeadView { other: h.other.push(line), ..h }),
        Some((key, v)) => if key == "arch"@ {
            if h.arch is Some {
                Err(LineError::Repeated(Key::Arch))
            } else {
                Ok(HeadView { arch: Some(v), ..h })
            }
        } else if key == "build"@ {
            if h.build is Some {
                Err(LineError::Repeated(Key::Build))
            } else {
                Ok(HeadView { build: Some(v), ..h })
            }
        } else if key == "complete"@ {
            if two_counts(v) is None {
                Err(LineError::Value(Key::Complete))
            } else if h.complete is Some {
                Err(LineError::Repeated(Key::Complete))
            } else {
                Ok(HeadView { complete: two_counts(v), ..h })
            }
        } else if key == "tokens"@ {
            if id_list(v, false) is None {
                Err(LineError::Value(Key::Tokens))
            } else if h.tokens is Some {
                Err(LineError::Repeated(Key::Tokens))
            } else {
                Ok(HeadView { tokens: id_list(v, false), ..h })
            }
        } else if key == "tokens_file"@ {
            if h.tokens_file is Some {
                Err(LineError::Repeated(Key::TokensFile))
            } else {
                Ok(HeadView { tokens_file: Some(v), ..h })
            }
        } else if key == "tokens_file_sha256"@ {
            if h.tokens_file_sha256 is Some {
                Err(LineError::Repeated(Key::TokensFileSha256))
            } else {
                Ok(HeadView { tokens_file_sha256: Some(v), ..h })
            }
        } else if key == "tokens_count"@ {
            if wide(v) is None {
                Err(LineError::Value(Key::TokensCount))
            } else if h.tokens_count is Some {
                Err(LineError::Repeated(Key::TokensCount))
            } else {
                Ok(HeadView { tokens_count: wide(v), ..h })
            }
        } else if key == "model_file"@ {
            if h.model_file is Some {
                Err(LineError::Repeated(Key::ModelFile))
            } else {
                Ok(HeadView { model_file: Some(v), ..h })
            }
        } else if key == "flags"@ {
            if flag_number(v, "-c"@) is None || flag_number(v, "-t"@) is None {
                Err(LineError::Value(Key::Flags))
            } else if h.flags is Some {
                Err(LineError::Repeated(Key::Flags))
            } else {
                Ok(
                    HeadView {
                        flags: Some(v),
                        ctx: flag_number(v, "-c"@)->0,
                        threads: flag_number(v, "-t"@)->0,
                        ..h
                    },
                )
            }
        } else if key == "prefill"@ {
            if narrow(v) is None {
                Err(LineError::Value(Key::Prefill))
            } else if h.prefill is Some {
                Err(LineError::Repeated(Key::Prefill))
            } else {
                Ok(HeadView { prefill: narrow(v), ..h })
            }
        } else if key == "decode_pos"@ {
            if narrow(v) is None {
                Err(LineError::Value(Key::DecodePos))
            } else if h.decode_pos is Some {
                Err(LineError::Repeated(Key::DecodePos))
            } else {
                Ok(HeadView { decode_pos: narrow(v), ..h })
            }
        } else if key == "state_inputs"@ {
            if h.state_inputs is Some {
                Err(LineError::Repeated(Key::StateInputs))
            } else {
                Ok(HeadView { state_inputs: Some(v), ..h })
            }
        } else if key == "fused_idx_topk"@ {
            if switch(v) is None {
                Err(LineError::Value(Key::FusedIdxTopk))
            } else if h.fused_idx_topk is Some {
                Err(LineError::Repeated(Key::FusedIdxTopk))
            } else {
                Ok(HeadView { fused_idx_topk: switch(v), ..h })
            }
        } else {
            Ok(HeadView { other: h.other.push(line), ..h })
        },
    }
}

/// The header lines that open with `# model` and a tab, in order.
pub open spec fn model_line(other: Seq<Seq<char>>) -> Option<Seq<char>>
    decreases other.len(),
{
    if other.len() == 0 {
        None
    } else if text::opens_with(other[0], "# model\t"@) {
        Some(other[0].skip("# model\t"@.len() as int))
    } else {
        model_line(other.drop_first())
    }
}

/// Fills a header field once: a second value for it is a repetition of `key`.
fn once<T>(slot: &mut Option<T>, v: T, key: Key) -> (r: Result<(), LineError>)
    ensures
        *final(slot) == Some(v),
        match r {
            Ok(()) => *old(slot) is None,
            Err(e) => *old(slot) is Some && e == LineError::Repeated(key),
        },
{
    let before: Option<T> = slot.take();
    *slot = Some(v);
    match before {
        Some(_) => Err(LineError::Repeated(key)),
        None => Ok(()),
    }
}

/// The number after the first `flag` in a command line.
fn flag_value(line: &[char], flag: &str) -> (r: Option<Option<u64>>)
    ensures
        r == flag_number(line@, flag@),
{
    let words: Vec<Vec<char>> = text::words_of(line);
    let ghost all = text::words(line@);
    let mut i: usize = 0;
    while i < words.len()
        invariant
            i <= words@.len(),
            text::pieces(words@) == all,
            all == text::words(line@),
            word_index(all, flag@, 0) == word_index(all, flag@, i as int),
        decreases words@.len() - i,
    {
        assert(all[i as int] == words@[i as int]@);
        if text::is(words[i].as_slice(), flag) {
            if i + 1 < words.len() {
                assert(all[i + 1] == words@[i + 1]@);
                return match text::parse_number(words[i + 1].as_slice(), u64::MAX) {
                    Some(n) => Some(Some(n)),
                    None => None,
                };
            }
            return None;
        }
        i += 1;
    }
    Some(None)
}

impl RefHeader {
    /// The header of no lines.
    pub fn new() -> (r: RefHeader)
        ensures
            r@ == empty_head(),
    {
        let r: RefHeader = RefHeader {
            arch: None,
            build: None,
            complete: None,
            tokens: None,
            tokens_file: None,
            tokens_file_sha256: None,
            tokens_count: None,
            model_file: None,
            flags: None,
            ctx: None,
            threads: None,
            prefill: None,
            decode_pos: None,
            state_inputs: None,
            fused_idx_topk: None,
            other: Vec::new(),
        };
        assert(r@.other =~= seq![]);
        r
    }

    /// `# model`: the path of the model file the set was dumped from, one of
    /// the lines kept verbatim in [`RefHeader::other`].
    #[must_use]
    pub fn model(&self) -> (r: Option<String>)
        ensures
            opt_chars(r) == model_line(text::strings(self.other@)),
    {
        let mut i: usize = 0;
        let ghost all = text::strings(self.other@);
        let prefix: Vec<char> = text::chars_of("# model\t");
        assert(all.skip(0) =~= all);
        while i < self.other.len()
            invariant
                i <= self.other@.len(),
                all == text::strings(self.other@),
                prefix@ == "# model\t"@,
                model_line(all) == model_line(all.skip(i as int)),
            decreases self.other@.len() - i,
        {
            proof {
                assert(all.skip(i as int).drop_first() =~= all.skip(i + 1));
                assert(all.skip(i as int)[0] == self.other@[i as int]@);
            }
            let line: Vec<char> = text::chars_of(self.other[i].as_str());
            if text::starts(line.as_slice(), prefix.as_slice()) {
                let rest: Vec<char> = text::piece(line.as_slice(), prefix.len(), line.len());
                assert(rest@ =~= line@.skip(prefix@.len() as int));
                return Some(text::string_of(rest.as_slice()));
            }
            i += 1;
        }
        None
    }

    /// Keeps a line verbatim.
    fn keep(&mut self, line: &[char])
        ensures
            final(self)@ == (HeadView { other: old(self)@.other.push(line@), ..old(self)@ }),
    {
        let ghost held = text::strings(self.other@);
        let s: String = text::string_of(line);
        let ghost added = s@;
        self.other.push(s);
        assert(text::strings(self.other@) =~= held.push(added));
    }

    /// One `#` line.
    pub fn header_line(&mut self, line: &[char]) -> (r: Result<(), LineError>)
        ensures
            match r {
                Ok(()) => header_after(old(self)@, line@) == Ok::<HeadView, LineError>(
                    final(self)@,
                ),
                Err(e) => header_after(old(self)@, line@) == Err::<HeadView, LineError>(e),
            },
    {
        let mark: Vec<char> = text::chars_of("# ");
        if !text::starts(line, mark.as_slice()) {
            self.keep(line);
            return Ok(());
        }
        let rest: Vec<char> = text::piece(line, mark.len(), line.len());
        assert(rest@ =~= line@.skip(mark@.len() as int));
        let (key, v) = match text::split_once(rest.as_slice(), '\t') {
            None => {
                self.keep(line);
                return Ok(());
            },
            Some(p) => p,
        };
        let k: &[char] = key.as_slice();
        let v: &[char] = v.as_slice();
        if text::is(k, "arch") {
            once(&mut self.arch, text::string_of(v), Key::Arch)
        } else if text::is(k, "build") {
            once(&mut self.build, text::string_of(v), Key::Build)
        } else if text::is(k, "complete") {
            match text::split_once(v, '\t') {
                None => Err(LineError::Value(Key::Complete)),
                Some(p) => match text::parse_number(p.0.as_slice(), u64::MAX) {
                    None => Err(LineError::Value(Key::Complete)),
                    Some(a) => match text::parse_number(p.1.as_slice(), u64::MAX) {
                        None => Err(LineError::Value(Key::Complete)),
                        Some(b) => once(&mut self.complete, (a, b), Key::Complete),
                    },
                },
            }
        } else if text::is(k, "tokens") {
            match text::parse_ids(v, false) {
                None => Err(LineError::Value(Key::Tokens)),
                Some(ids) => once(&mut self.tokens, ids, Key::Tokens),
            }
        } else if text::is(k, "tokens_file") {
            once(&mut self.tokens_file, text::string_of(v), Key::TokensFile)
        } else if text::is(k, "tokens_file_sha256") {
            once(&mut self.tokens_file_sha256, text::string_of(v), Key::TokensFileSha256)
        } else if text::is(k, "tokens_count") {
            match text::parse_number(v, u64::MAX) {
                None => Err(LineError::Value(Key::TokensCount)),
                Some(n) => once(&mut self.tokens_count, n, Key::TokensCount),
            }
        } else if text::is(k, "model_file") {
            once(&mut self.model_file, text::string_of(v), Key::ModelFile)
        } else if text::is(k, "flags") {
            match flag_value(v, "-c") {
                None => Err(LineError::Value(Key::Flags)),
                Some(ctx) => match flag_value(v, "-t") {
                    None => Err(LineError::Value(Key::Flags)),
                    Some(threads) => {
                        self.ctx = ctx;
                        self.threads = threads;
                        once(&mut self.flags, text::string_of(v), Key::Flags)
                    },
                },
            }
        } else if text::is(k, "prefill") {
            match text::parse_number(v, u32::MAX as u64) {
                None => Err(LineError::Value(Key::Prefill)),
                Some(n) => once(&mut self.prefill, n as u32, Key::Prefill),
            }
        } else if text::is(k, "decode_pos") {
            match text::parse_number(v, u32::MAX as u64) {
                None => Err(LineError::Value(Key::DecodePos)),
                Some(n) => once(&mut self.decode_pos, n as u32, Key::DecodePos),
            }
        } else if text::is(k, "state_inputs") {
            once(&mut self.state_inputs, text::string_of(v), Key::StateInputs)
        } else if text::is(k, "fused_idx_topk") {
            if text::is(v, "0") {
                once(&mut self.fused_idx_topk, false, Key::FusedIdxTopk)
            } else if text::is(v, "1") {
                once(&mut self.fused_idx_topk, true, Key::FusedIdxTopk)
            } else {
                Err(LineError::Value(Key::FusedIdxTopk))
            }
        } else {
            self.keep(line);
            Ok(())
        }
    }
}

// ------------------------------------------------------------ what a manifest gives back

/// A tensor's row as it is written: its fields in order, the four of the wide form
/// behind the eleven of the narrow one.
pub open spec fn row_fields(v: RowView, wide: bool) -> Seq<Seq<char>> {
    let narrow = seq![
        v.kind.spelling(),
        v.name,
        text::decimal(v.occurrence as nat),
        v.ty,
        text::decimal(v.ne[0] as nat),
        text::decimal(v.ne[1] as nat),
        text::decimal(v.ne[2] as nat),
        text::decimal(v.ne[3] as nat),
        text::decimal(v.bytes as nat),
        v.sum,
        v.op,
    ];
    if wide {
        narrow + seq![
            text::decimal(v.contig->0 as nat),
            text::decimal(v.logical->0 as nat),
            v.src0->0,
            v.src1->0,
        ]
    } else {
        narrow
    }
}

/// A row reads back as it was written, in the narrow form of eleven fields and in
/// the wide form of fifteen; any other width is refused.
pub proof fn law_a_row_reads_back(v: RowView, wide: bool)
    requires
        v.ne.len() == 4,
        is_float_text(v.sum),
        (v.contig is Some) == wide,
        (v.logical is Some) == wide,
        (v.src0 is Some) == wide,
        (v.src1 is Some) == wide,
    ensures
        row_of(v.kind, row_fields(v, wide)) == Ok::<RowView, LineError>(v),
        row_of(v.kind, row_fields(v, wide).drop_last()) == Err::<RowView, LineError>(
            LineError::Width,
        ),
{
    text::law_number_reads_decimal(v.occurrence as nat, max32());
    text::law_number_reads_decimal(v.ne[0] as nat, max64());
    text::law_number_reads_decimal(v.ne[1] as nat, max64());
    text::law_number_reads_decimal(v.ne[2] as nat, max64());
    text::law_number_reads_decimal(v.ne[3] as nat, max64());
    text::law_number_reads_decimal(v.bytes as nat, max64());
    if wide {
        text::law_number_reads_decimal(v.contig->0 as nat, 255);
        text::law_number_reads_decimal(v.logical->0 as nat, 255);
    }
    assert(seq![v.ne[0], v.ne[1], v.ne[2], v.ne[3]] =~= v.ne);
    let f = row_fields(v, wide);
    assert(f[1] == v.name && f[2] == text::decimal(v.occurrence as nat) && f[3] == v.ty);
    assert(row_of(v.kind, f)->Ok_0.ne =~= v.ne);
}

/// An integer twin's row as it is written.
pub open spec fn int_fields(v: IntView, sum: Seq<char>) -> Seq<Seq<char>> {
    seq![
        "int"@,
        v.name,
        text::decimal(v.occurrence as nat),
        if v.of == RowKind::Tensor {
            "tensor"@
        } else {
            "input"@
        },
        v.ty,
        if v.twin == FileElem::I32 {
            "i32"@
        } else {
            "i64"@
        },
        if v.layout == Layout::Flat {
            "flat"@
        } else {
            "logical"@
        },
        text::decimal(v.count as nat),
        text::decimal(v.bytes as nat),
        sum,
        text::decimal(v.absmax as nat),
        v.file,
    ]
}

/// An integer twin's row reads back as it was written, its sum signed; a kind, an
/// element or a layout of another spelling is refused.
pub proof fn law_an_int_row_reads_back(v: IntView, other: Seq<char>)
    requires
        v.twin != FileElem::F32,
        v.sum != i64::MIN,
    ensures
        v.sum >= 0 ==> int_row_of(int_fields(v, text::decimal(v.sum as nat))) == Ok::<
            IntView,
            LineError,
        >(v),
        v.sum < 0 ==> int_row_of(int_fields(v, seq!['-'] + text::decimal((-v.sum) as nat))) == Ok::<
            IntView,
            LineError,
        >(v),
        other != "i32"@ && other != "i64"@ ==> int_row_of(
            int_fields(v, other).update(5, other),
        ) == Err::<IntView, LineError>(LineError::Field(5)),
        other != "tensor"@ && other != "input"@ ==> int_row_of(
            int_fields(v, other).update(3, other),
        ) == Err::<IntView, LineError>(LineError::Field(3)),
        other != "flat"@ && other != "logical"@ ==> int_row_of(
            int_fields(v, other).update(6, other),
        ) == Err::<IntView, LineError>(LineError::Field(6)),
{
    reveal_strlit("tensor");
    reveal_strlit("input");
    reveal_strlit("i32");
    reveal_strlit("i64");
    reveal_strlit("flat");
    reveal_strlit("logical");
    assert("tensor"@.len() != "input"@.len() && "flat"@.len() != "logical"@.len());
    assert("i32"@[1] != "i64"@[1]);
    text::law_number_reads_decimal(v.occurrence as nat, max32());
    text::law_number_reads_decimal(v.count as nat, max64());
    text::law_number_reads_decimal(v.bytes as nat, max64());
    text::law_number_reads_decimal(v.absmax as nat, max64());
    text::law_an_integer_reads_back(v.sum as int);
}

/// The count of a shape: one of a scalar, and each axis multiplies it. A shape
/// whose count would not fit is refused, and one with a product that does not fit
/// on the way too.
pub proof fn law_a_count_multiplies_its_axes(ne: Seq<u64>, i: int, k: u64)
    requires
        ne.len() == 4,
        0 <= i < 4,
        k * ne[i] <= u64::MAX,
    ensures
        product(seq![1u64, 1, 1, 1]) == 1,
        product(ne.update(i, (k * ne[i]) as u64)) == k * product(ne),
        product_fits(ne) ==> product(ne) <= u64::MAX,
        ne[0] * ne[1] > u64::MAX ==> !product_fits(ne),
        product(ne) > u64::MAX ==> !product_fits(ne),
        ne[2] >= 1 && ne[3] >= 1 && product(ne) <= u64::MAX ==> product_fits(ne),
{
    let (a, b, c, d, x) = (ne[0] as int, ne[1] as int, ne[2] as int, ne[3] as int, k as int);
    let ones = seq![1u64, 1, 1, 1];
    assert(ones[0] == 1 && ones[1] == 1 && ones[2] == 1 && ones[3] == 1);
    assert((x * a) * b * c * d == x * (a * b * c * d)) by (nonlinear_arith);
    assert(a * (x * b) * c * d == x * (a * b * c * d)) by (nonlinear_arith);
    assert(a * b * (x * c) * d == x * (a * b * c * d)) by (nonlinear_arith);
    assert(a * b * c * (x * d) == x * (a * b * c * d)) by (nonlinear_arith);
    if c >= 1 && d >= 1 {
        assert(0 <= a * b && a * b <= a * b * c && a * b * c <= a * b * c * d) by (nonlinear_arith)
            requires
                a >= 0,
                b >= 0,
                c >= 1,
                d >= 1,
        ;
    }
}

/// A header line `# key`, a tab and a value: the key is what stands before the
/// first tab, the value all behind it.
pub proof fn law_a_header_line_is_key_and_value(key: Seq<char>, v: Seq<char>)
    requires
        !key.contains('\t'),
    ensures
        key_and_value(seq!['#', ' '] + key + seq!['\t'] + v) == Some((key, v)),
        key_and_value(seq!['#', ' '] + key) is None,
        key.len() > 0 && key[0] != '#' ==> key_and_value(key) is None,
{
    reveal_strlit("# ");
    let line = seq!['#', ' '] + key + seq!['\t'] + v;
    assert("# "@ =~= seq!['#', ' ']);
    assert(line.take(2) =~= "# "@);
    assert(line.skip(2) =~= key + seq!['\t'] + v);
    text::lemma_index_is(key + seq!['\t'] + v, '\t', 0, key.len() as int);
    assert((key + seq!['\t'] + v).take(key.len() as int) =~= key);
    assert((key + seq!['\t'] + v).skip(key.len() as int + 1) =~= v);
    let bare = seq!['#', ' '] + key;
    assert(bare.take(2) =~= "# "@);
    assert(bare.skip(2) =~= key);
    lemma_no_index(key, '\t', 0);
    if key.len() > 0 && key[0] != '#' && text::opens_with(key, "# "@) {
        assert(key.take(2)[0] == "# "@[0]);
    }
}

proof fn lemma_no_index(s: Seq<char>, c: char, at: int)
    requires
        0 <= at,
        !s.contains(c),
    ensures
        text::index_from(s, c, at) is None,
    decreases s.len() - at,
{
    if at < s.len() {
        assert(s[at] != c);
        lemma_no_index(s, c, at + 1);
    }
}

/// A header line of text sets its own key's field and no other; given twice it is
/// refused, and a line of an unknown key is kept as it stands.
pub proof fn law_a_header_line_sets_one_field(h: HeadView, v: Seq<char>, key: Seq<char>)
    requires
        h.arch is None && h.build is None && h.tokens_file is None && h.tokens_file_sha256 is None
            && h.model_file is None && h.state_inputs is None,
        !key.contains('\t'),
    ensures
        ({
            let line = |k: Seq<char>| seq!['#', ' '] + k + seq!['\t'] + v;
            let ok = |x: HeadView| Ok::<HeadView, LineError>(x);
            &&& header_after(h, line("arch"@)) == ok(HeadView { arch: Some(v), ..h })
            &&& header_after(h, line("build"@)) == ok(HeadView { build: Some(v), ..h })
            &&& header_after(h, line("tokens_file"@)) == ok(HeadView { tokens_file: Some(v), ..h })
            &&& header_after(h, line("tokens_file_sha256"@)) == ok(
                HeadView { tokens_file_sha256: Some(v), ..h },
            )
            &&& header_after(h, line("model_file"@)) == ok(HeadView { model_file: Some(v), ..h })
            &&& header_after(h, line("state_inputs"@)) == ok(
                HeadView { state_inputs: Some(v), ..h },
            )
            &&& header_after(HeadView { arch: Some(v), ..h }, line("arch"@)) == Err::<
                HeadView,
                LineError,
            >(LineError::Repeated(Key::Arch))
            &&& key.len() == 1 ==> header_after(h, line(key)) == ok(
                HeadView { other: h.other.push(line(key)), ..h },
            )
        }),
{
    lemma_keys();
    law_a_header_line_is_key_and_value("arch"@, v);
    law_a_header_line_is_key_and_value("build"@, v);
    law_a_header_line_is_key_and_value("tokens_file"@, v);
    law_a_header_line_is_key_and_value("tokens_file_sha256"@, v);
    law_a_header_line_is_key_and_value("model_file"@, v);
    law_a_header_line_is_key_and_value("state_inputs"@, v);
    law_a_header_line_is_key_and_value(key, v);
}

/// A header line of a number sets its own key's field and no other: the counts of
/// a complete dump, the prompt's length, the prefill's and the step's positions,
/// the tokens, and the context and the threads among the flags.
pub proof fn law_a_header_number_sets_one_field(h: HeadView, a: u64, b: u64, n: u32, v: Seq<char>)
    requires
        h.complete is None && h.tokens is None && h.tokens_count is None && h.flags is None
            && h.prefill is None && h.decode_pos is None && h.fused_idx_topk is None,
        id_list(v, false) is Some,
    ensures
        ({
            let line = |k: Seq<char>, x: Seq<char>| seq!['#', ' '] + k + seq!['\t'] + x;
            let ok = |x: HeadView| Ok::<HeadView, LineError>(x);
            let counts = text::decimal(a as nat) + seq!['\t'] + text::decimal(b as nat);
            let num = text::decimal(n as nat);
            &&& header_after(h, line("complete"@, counts)) == ok(
                HeadView { complete: Some((a, b)), ..h },
            )
            &&& header_after(h, line("tokens_count"@, text::decimal(a as nat))) == ok(
                HeadView { tokens_count: Some(a), ..h },
            )
            &&& header_after(h, line("prefill"@, num)) == ok(HeadView { prefill: Some(n), ..h })
            &&& header_after(h, line("decode_pos"@, num)) == ok(
                HeadView { decode_pos: Some(n), ..h },
            )
            &&& header_after(h, line("tokens"@, v)) == ok(
                HeadView { tokens: id_list(v, false), ..h },
            )
            &&& header_after(h, line("fused_idx_topk"@, "0"@)) == ok(
                HeadView { fused_idx_topk: Some(false), ..h },
            )
            &&& header_after(h, line("fused_idx_topk"@, "1"@)) == ok(
                HeadView { fused_idx_topk: Some(true), ..h },
            )
        }),
{
    lemma_keys();
    let (x, y) = (text::decimal(a as nat), text::decimal(b as nat));
    let counts = x + seq!['\t'] + y;
    law_a_header_line_is_key_and_value("complete"@, counts);
    law_a_header_line_is_key_and_value("tokens_count"@, x);
    law_a_header_line_is_key_and_value("prefill"@, text::decimal(n as nat));
    law_a_header_line_is_key_and_value("decode_pos"@, text::decimal(n as nat));
    law_a_header_line_is_key_and_value("tokens"@, v);
    law_a_header_line_is_key_and_value("fused_idx_topk"@, "0"@);
    law_a_header_line_is_key_and_value("fused_idx_topk"@, "1"@);
    text::law_number_reads_decimal(a as nat, max64());
    text::law_number_reads_decimal(b as nat, max64());
    text::law_number_reads_decimal(n as nat, max32());
    lemma_no_tab(a as nat);
    assert forall|k: int| 0 <= k < x.len() implies counts[k] != '\t' by {
        assert(counts[k] == x[k]);
    }
    text::lemma_index_is(counts, '\t', 0, x.len() as int);
    assert(counts.take(x.len() as int) =~= x);
    assert(counts.skip(x.len() as int + 1) =~= y);
    reveal_strlit("0");
    reveal_strlit("1");
    assert("0"@[0] != "1"@[0]);
}

/// The flags' numbers are those behind `-c` and `-t`, none where the flag is not
/// given.
pub proof fn law_a_flags_number_stands_behind_it(a: u64, rest: Seq<char>)
    ensures
        flag_number(seq!['-', 'c', ' '] + text::decimal(a as nat) + seq![' '] + rest, "-c"@)
            == Some(Some(a)),
        flag_number(seq!['-', 't', ' '] + text::decimal(a as nat) + seq![' '] + rest, "-t"@)
            == Some(Some(a)),
        flag_number(text::decimal(a as nat), "-c"@) == Some(None::<u64>),
        flag_number(seq!['-', 'c'], "-c"@) is None,
{
    let d = text::decimal(a as nat);
    lemma_no_tab(a as nat);
    text::law_number_reads_decimal(a as nat, max64());
    reveal_strlit("-c");
    reveal_strlit("-t");
    assert forall|i: int| 0 <= i < d.len() implies !text::is_whitespace(#[trigger] d[i]) by {}
    let (c, t) = (seq!['-', 'c'], seq!['-', 't']);
    assert("-c"@ =~= c);
    assert("-t"@ =~= t);
    text::law_a_blank_ends_a_word(d, ' ', rest);
    text::law_a_blank_ends_a_word(c, ' ', d + seq![' '] + rest);
    text::law_a_blank_ends_a_word(t, ' ', d + seq![' '] + rest);
    assert(seq!['-', 'c', ' '] + d + seq![' '] + rest =~= c + seq![' '] + (d + seq![' '] + rest));
    assert(seq!['-', 't', ' '] + d + seq![' '] + rest =~= t + seq![' '] + (d + seq![' '] + rest));
    let w = seq![d] + text::words(rest);
    assert((seq![c] + w)[0] == c && (seq![c] + w)[1] == d);
    assert((seq![t] + w)[0] == t && (seq![t] + w)[1] == d);
    assert(d[0] != '-');
    assert(seq![d][0] == d && d != c);
    reveal_with_fuel(word_index, 2);
    assert(seq![c][0] == c);
}

proof fn lemma_no_tab(n: nat)
    ensures
        text::decimal(n).len() > 0,
        forall|i: int|
            0 <= i < text::decimal(n).len() ==> {
                &&& '0' <= #[trigger] text::decimal(n)[i]
                &&& text::decimal(n)[i] <= '9'
            },
    decreases n,
{
    if n >= 10 {
        lemma_no_tab(n / 10);
    }
}

/// The keys of a header differ.
proof fn lemma_keys()
    ensures
        "arch"@.len() == 4,
        "build"@.len() == 5,
        "complete"@.len() == 8,
        "tokens"@.len() == 6,
        "tokens_file"@.len() == 11,
        "tokens_file_sha256"@.len() == 18,
        "tokens_count"@.len() == 12,
        "model_file"@.len() == 10,
        "flags"@.len() == 5,
        "prefill"@.len() == 7,
        "decode_pos"@.len() == 10,
        "state_inputs"@.len() == 12,
        "fused_idx_topk"@.len() == 14,
        "build"@[0] == 'b' && "flags"@[0] == 'f',
        "model_file"@[0] == 'm' && "decode_pos"@[0] == 'd',
        "tokens_count"@[0] == 't' && "state_inputs"@[0] == 's',
        forall|k: Seq<char>|
            #![trigger k.contains('\t')]
            k == "arch"@ || k == "build"@ || k == "complete"@ || k == "tokens"@ || k
                == "tokens_file"@ || k == "tokens_file_sha256"@ || k == "tokens_count"@ || k
                == "model_file"@ || k == "flags"@ || k == "prefill"@ || k == "decode_pos"@ || k
                == "state_inputs"@ || k == "fused_idx_topk"@ ==> !k.contains('\t'),
{
    reveal_strlit("arch");
    reveal_strlit("build");
    reveal_strlit("complete");
    reveal_strlit("tokens");
    reveal_strlit("tokens_file");
    reveal_strlit("tokens_file_sha256");
    reveal_strlit("tokens_count");
    reveal_strlit("model_file");
    reveal_strlit("flags");
    reveal_strlit("prefill");
    reveal_strlit("decode_pos");
    reveal_strlit("state_inputs");
    reveal_strlit("fused_idx_topk");
}

/// The model is named by the first line that says one, whatever lines stand before
/// it that do not.
pub proof fn law_the_first_model_line_counts(other: Seq<char>, name: Seq<char>, rest: Seq<Seq<char>>)
    requires
        !text::opens_with(other, "# model\t"@),
    ensures
        model_line(seq![]) is None,
        model_line(seq![other] + rest) == model_line(rest),
        model_line(seq!["# model\t"@ + name] + rest) == Some(name),
{
    let m = "# model\t"@ + name;
    let n = "# model\t"@.len() as int;
    assert((seq![other] + rest).drop_first() =~= rest);
    assert((seq![m] + rest)[0] == m);
    assert(m.take(n) =~= "# model\t"@);
    assert(m.skip(n) =~= name);
}

/// A switch is off for a zero and on for a one, and two counts are read on either
/// side of a tab.
pub proof fn law_a_switch_and_two_counts_read(a: u64, b: u64, v: Seq<char>)
    ensures
        switch("0"@) == Some(false),
        switch("1"@) == Some(true),
        v != "0"@ && v != "1"@ ==> switch(v) is None,
        two_counts(text::decimal(a as nat) + seq!['\t'] + text::decimal(b as nat)) == Some((a, b)),
        narrow(text::decimal(a as nat)) == (if a < 0x1_0000_0000 {
            Some(a as u32)
        } else {
            None
        }),
{
    reveal_strlit("0");
    reveal_strlit("1");
    assert("0"@[0] == '0' && "1"@[0] == '1');
    let (x, y) = (text::decimal(a as nat), text::decimal(b as nat));
    let s = x + seq!['\t'] + y;
    text::lemma_decimal_value(a as nat);
    assert forall|k: int| 0 <= k < x.len() implies s[k] != '\t' by {
        assert(text::is_digit(x[k]));
        assert(s[k] == x[k]);
    }
    assert(s[x.len() as int] == '\t');
    text::lemma_index_is(s, '\t', 0, x.len() as int);
    assert(s.take(x.len() as int) =~= x);
    assert(s.skip(x.len() as int + 1) =~= y);
    text::law_number_reads_decimal(a as nat, max64());
    text::law_number_reads_decimal(b as nat, max64());
    if a < 0x1_0000_0000 {
        text::law_number_reads_decimal(a as nat, max32());
    } else {
        assert(text::is_digit(x[0]));
        assert(text::unsigned_part(x) == x);
    }
}

} // verus!
