//! Reader of ik's KL-divergence base file. The file holds the ids ik evaluated
//! and, at every position it scored, its log-probabilities over the whole
//! vocabulary: an engine can be scored against ik position by position on the
//! same ids, with no tokenizer of its own.
//!
//! Layout, little-endian, no padding between fields:
//!
//! ```text
//! "_logits_"                 8 bytes
//! n_ctx, n_vocab, n_chunk    i32 each
//! token ids                  i32 x n_chunk*n_ctx, chunk after chunk
//! records                    one per scored position, chunk after chunk
//! ```
//!
//! ik evaluates each chunk of `n_ctx` ids from an empty cache and scores
//! positions `n_ctx/2 ..= n_ctx-2`, each against the id after it. A record is
//! `2*ceil(n_vocab/2) + 4` u16: f32 `scale`, f32 `min_log_prob`, one level per
//! vocabulary entry, and one zero u16 when `n_vocab` is odd. The quantizer puts
//! a record's maximum at [`TOP_LEVEL`] and an entry more than 24 nats below it
//! at level 0, the floor.
//!
//! Two files of one text are compared record by record through [`Pair`].
use crate::bits;
use crate::count::count_where;
use crate::files::signed32;
use crate::text;
use vstd::prelude::*;
use vstd::slice::slice_subrange;

verus! {

/// The level ik gives a record's maximum.
pub const TOP_LEVEL: u16 = 65535;

/// The magic and three i32.
pub const HEADER_BYTES: usize = 20;

/// A record's two f32 before its levels.
pub const RECORD_HEAD_BYTES: usize = 8;

/// Four bytes at `at`, least significant first.
pub open spec fn le_at(b: Seq<u8>, at: int) -> int {
    b[at] + 256 * b[at + 1] + 65536 * b[at + 2] + 16777216 * b[at + 3]
}

/// The file's first eight bytes: `_logits_`.
pub open spec fn magic() -> Seq<u8> {
    seq![95u8, 108, 111, 103, 105, 116, 115, 95]
}

/// Size `i` of the header: `n_ctx`, `n_vocab`, `n_chunk`.
pub open spec fn header_size(b: Seq<u8>, i: int) -> int {
    signed32(le_at(b, 8 + 4 * i))
}

/// Positions ik scores in a chunk of `n_ctx`: `n_ctx/2 ..= n_ctx-2`.
pub open spec fn scored(n_ctx: int) -> int {
    n_ctx - 1 - n_ctx / 2
}

/// Bytes of a record over `n_vocab` entries: the levels padded to an even
/// count.
pub open spec fn record_len(n_vocab: int) -> int {
    2 * (n_vocab + n_vocab % 2 + 4)
}

/// The file length the layout gives.
pub open spec fn file_len(n_ctx: int, n_vocab: int, n_chunk: int) -> int {
    20 + 4 * (n_chunk * n_ctx) + (n_chunk * scored(n_ctx)) * record_len(n_vocab)
}

/// Id `i` of the file.
pub open spec fn id_at(b: Seq<u8>, i: int) -> int {
    signed32(le_at(b, 20 + 4 * i))
}

/// The first position from `at` on below `n` of an id outside `0..n_vocab`.
pub open spec fn first_bad_id(b: Seq<u8>, n_vocab: int, n: int, at: int) -> Option<int>
    decreases n - at,
{
    if at < 0 || at >= n {
        None
    } else if !(0 <= id_at(b, at) < n_vocab) {
        Some(at)
    } else {
        first_bad_id(b, n_vocab, n, at + 1)
    }
}

/// Why bytes are no base file.
#[derive(Clone, Copy, Debug, PartialEq, Eq, Structural)]
pub enum KldError {
    /// Shorter than the header.
    Short,
    /// Does not open with the magic.
    Magic,
    /// This size of the header is not positive: `n_ctx`, `n_vocab`, `n_chunk`.
    Size(usize),
    /// `n_vocab` is not the model's vocabulary.
    Vocab,
    /// The sizes the header states overflow.
    Overflow,
    /// The length is not the one the header implies.
    Length,
    /// This id is outside the vocabulary.
    Id(usize),
}

/// What a base file says.
pub ghost struct KldView {
    pub bytes: Seq<u8>,
    pub n_ctx: int,
    pub n_vocab: int,
    pub n_chunk: int,
}

/// What bytes say as a base file, `want` the vocabulary wanted of it.
pub open spec fn read(b: Seq<u8>, want: Option<usize>) -> Result<KldView, KldError> {
    let (c, v, k) = (header_size(b, 0), header_size(b, 1), header_size(b, 2));
    if b.len() < 20 {
        Err(KldError::Short)
    } else if b.take(8) != magic() {
        Err(KldError::Magic)
    } else if c <= 0 {
        Err(KldError::Size(0))
    } else if v <= 0 {
        Err(KldError::Size(1))
    } else if k <= 0 {
        Err(KldError::Size(2))
    } else if want is Some && want->0 != v {
        Err(KldError::Vocab)
    } else if file_len(c, v, k) > usize::MAX {
        Err(KldError::Overflow)
    } else if b.len() != file_len(c, v, k) {
        Err(KldError::Length)
    } else {
        match first_bad_id(b, v, k * c, 0) {
            Some(i) => Err(KldError::Id(i as usize)),
            None => Ok(KldView { bytes: b, n_ctx: c, n_vocab: v, n_chunk: k }),
        }
    }
}

impl KldView {
    /// The ids of the file.
    pub open spec fn ids(self) -> Seq<u32> {
        Seq::new((self.n_chunk * self.n_ctx) as nat, |i: int| id_at(self.bytes, i) as u32)
    }

    /// The records of the file.
    pub open spec fn n_records(self) -> int {
        self.n_chunk * scored(self.n_ctx)
    }

    /// Where record `i` starts.
    pub open spec fn record_start(self, i: int) -> int {
        20 + 4 * (self.n_chunk * self.n_ctx) + i * record_len(self.n_vocab)
    }

    /// The sizes and ids are those of a base file.
    pub open spec fn valid(self) -> bool {
        read(self.bytes, None) == Ok::<KldView, KldError>(self)
    }
}

/// One scored position: ik's log-probabilities for the id after `pos`.
pub ghost struct RecordView {
    pub chunk: int,
    pub pos: int,
    pub next: int,
    pub scale: int,
    pub min_log_prob: int,
    pub levels: Seq<u8>,
}

impl KldView {
    /// Record `i` in file order.
    pub open spec fn record(self, i: int) -> RecordView {
        let per = scored(self.n_ctx);
        let at = self.record_start(i);
        RecordView {
            chunk: i / per,
            pos: self.n_ctx / 2 + i % per,
            next: id_at(self.bytes, (i / per) * self.n_ctx + self.n_ctx / 2 + i % per + 1),
            scale: le_at(self.bytes, at),
            min_log_prob: le_at(self.bytes, at + 4),
            levels: self.bytes.subrange(at + 8, at + 8 + 2 * self.n_vocab),
        }
    }
}

/// One scored position: ik's log-probabilities for the id after `pos`, the two
/// f32 by their bits.
#[derive(Clone, Copy, Debug)]
pub struct Record<'a> {
    /// The chunk, from 0.
    pub chunk: usize,
    /// The position within the chunk whose logits these are.
    pub pos: usize,
    /// The id at `pos + 1`: the one scored.
    pub next: u32,
    /// Nats per level.
    pub scale: u32,
    /// The log-probability of level 0.
    pub min_log_prob: u32,
    /// The levels, two bytes each, entry by entry.
    pub levels: &'a [u8],
}

impl<'a> View for Record<'a> {
    type V = RecordView;

    open spec fn view(&self) -> RecordView {
        RecordView {
            chunk: self.chunk as int,
            pos: self.pos as int,
            next: self.next as int,
            scale: self.scale as int,
            min_log_prob: self.min_log_prob as int,
            levels: self.levels@,
        }
    }
}

/// The level of entry `k`.
pub open spec fn level_of(levels: Seq<u8>, k: int) -> int {
    levels[2 * k] + 256 * levels[2 * k + 1]
}

/// Entries of a record.
pub open spec fn entries(levels: Seq<u8>) -> int {
    levels.len() as int / 2
}

/// The greatest level among the first `n` entries, 0 of none.
pub open spec fn top_level(levels: Seq<u8>, n: int) -> int
    decreases n,
{
    if n <= 0 {
        0
    } else {
        let before = top_level(levels, n - 1);
        if level_of(levels, n - 1) > before {
            level_of(levels, n - 1)
        } else {
            before
        }
    }
}

/// The entries at a level.
pub open spec fn at_level(levels: Seq<u8>, level: int) -> spec_fn(int) -> bool {
    |k: int| level_of(levels, k) == level
}

/// The first entry from `at` on at a level.
pub open spec fn first_at(levels: Seq<u8>, level: int, at: int) -> int
    decreases entries(levels) - at,
{
    if at >= entries(levels) || level_of(levels, at) == level {
        at
    } else {
        first_at(levels, level, at + 1)
    }
}

impl<'a> Record<'a> {
    /// Entry `tok`'s level.
    pub fn level(&self, tok: u32) -> (r: u16)
        requires
            tok < entries(self.levels@),
        ensures
            r == level_of(self.levels@, tok as int),
    {
        let n: usize = self.levels.len();
        let at: usize = 2 * tok as usize;
        self.levels[at] as u16 + 256 * (self.levels[at + 1] as u16)
    }

    /// The levels, entry by entry.
    pub fn levels(&self) -> (r: Vec<u16>)
        ensures
            r@.len() == entries(self.levels@),
            forall|k: int| 0 <= k < r@.len() ==> #[trigger] r@[k] == level_of(self.levels@, k),
    {
        let n: usize = self.levels.len() / 2;
        let mut out: Vec<u16> = Vec::new();
        let mut k: usize = 0;
        while k < n
            invariant
                k <= n == entries(self.levels@),
                out@.len() == k,
                self.levels@.len() <= usize::MAX,
                forall|m: int| 0 <= m < k ==> #[trigger] out@[m] == level_of(self.levels@, m),
            decreases n - k,
        {
            out.push(self.levels[2 * k] as u16 + 256 * (self.levels[2 * k + 1] as u16));
            k += 1;
        }
        out
    }

    /// `next` is stored at level 0. When the record's range reaches the floor,
    /// its true log-probability may be lower than stored.
    pub fn next_at_floor(&self) -> (r: bool)
        requires
            self.next < entries(self.levels@),
        ensures
            r == (level_of(self.levels@, self.next as int) == 0),
    {
        self.level(self.next) == 0
    }

    /// The record's top level is the one ik's quantizer puts: [`TOP_LEVEL`]
    /// where the scale is above 0, level 0 else. Gives the number of entries at
    /// the floor, or the top level where it is another.
    pub fn check_levels(&self) -> (r: Result<usize, u16>)
        ensures
            ({
                let n = entries(self.levels@);
                let want: int = if bits::less(0, self.scale) {
                    TOP_LEVEL as int
                } else {
                    0
                };
                match r {
                    Ok(zeros) => top_level(self.levels@, n) == want && zeros == count_where(
                        n,
                        at_level(self.levels@, 0),
                    ),
                    Err(top) => top_level(self.levels@, n) != want && top == top_level(
                        self.levels@,
                        n,
                    ),
                }
            }),
    {
        let levels: Vec<u16> = self.levels();
        let mut top: u16 = 0;
        let mut zeros: usize = 0;
        let mut k: usize = 0;
        while k < levels.len()
            invariant
                k <= levels@.len() == entries(self.levels@),
                zeros <= k,
                top == top_level(self.levels@, k as int),
                zeros == count_where(k as int, at_level(self.levels@, 0)),
                forall|m: int|
                    0 <= m < levels@.len() ==> #[trigger] levels@[m] == level_of(self.levels@, m),
            decreases levels@.len() - k,
        {
            let q: u16 = levels[k];
            if q > top {
                top = q;
            }
            if q == 0 {
                zeros += 1;
            }
            k += 1;
        }
        let want: u16 = if bits::is_less(0, self.scale) {
            TOP_LEVEL
        } else {
            0
        };
        if top == want {
            Ok(zeros)
        } else {
            Err(top)
        }
    }
}

/// One base file, checked against ik's layout by [`KldBase::open`].
#[derive(Debug)]
pub struct KldBase<'a> {
    map: &'a [u8],
    n_ctx: usize,
    n_vocab: usize,
    n_chunk: usize,
    record_bytes: u64,
    tokens: Vec<u32>,
}

impl<'a> View for KldBase<'a> {
    type V = KldView;

    closed spec fn view(&self) -> KldView {
        KldView {
            bytes: self.map@,
            n_ctx: self.n_ctx as int,
            n_vocab: self.n_vocab as int,
            n_chunk: self.n_chunk as int,
        }
    }
}

/// Four bytes at `at`, least significant first.
fn le_u32(b: &[u8], at: usize) -> (r: u32)
    requires
        at + 4 <= b@.len(),
    ensures
        r == le_at(b@, at as int),
{
    let n: usize = b.len();
    b[at] as u32 + 256 * (b[at + 1] as u32) + 65536 * (b[at + 2] as u32) + 16777216 * (b[at
        + 3] as u32)
}

/// Four bytes at `at` as a signed integer.
fn le_i32(b: &[u8], at: usize) -> (r: i64)
    requires
        at + 4 <= b@.len(),
    ensures
        r == signed32(le_at(b@, at as int)),
        -0x8000_0000 <= r < 0x8000_0000,
{
    let w: i64 = le_u32(b, at) as i64;
    if w >= 0x8000_0000 {
        w - 0x1_0000_0000
    } else {
        w
    }
}

/// Positions ik scores in a chunk of `n_ctx`.
fn scored_per_chunk(n_ctx: usize) -> (r: usize)
    requires
        n_ctx > 0,
    ensures
        r == scored(n_ctx as int),
        r < n_ctx,
{
    n_ctx - 1 - n_ctx / 2
}

/// The file length ik's layout gives, where the machine's index type holds it.
fn layout_bytes(n_ctx: u64, n_vocab: u64, n_chunk: u64) -> (r: Option<usize>)
    requires
        0 < n_ctx < 0x8000_0000,
        0 < n_vocab < 0x8000_0000,
        0 < n_chunk < 0x8000_0000,
    ensures
        match r {
            Some(n) => n == file_len(n_ctx as int, n_vocab as int, n_chunk as int),
            None => file_len(n_ctx as int, n_vocab as int, n_chunk as int) > usize::MAX,
        },
{
    let per: u64 = n_ctx - 1 - n_ctx / 2;
    let rec: u64 = 2 * (n_vocab + n_vocab % 2 + 4);
    proof {
        assert(n_chunk * n_ctx <= 0x8000_0000 * 0x8000_0000) by (nonlinear_arith)
            requires
                n_chunk < 0x8000_0000,
                n_ctx < 0x8000_0000,
        ;
        assert(n_chunk * per <= 0x8000_0000 * 0x8000_0000) by (nonlinear_arith)
            requires
                n_chunk < 0x8000_0000,
                per < 0x8000_0000,
        ;
        let records = n_chunk * per;
        assert(records * rec <= 0x4000_0000_0000_0000 * 0x1_0000_0100) by (nonlinear_arith)
            requires
                0 <= records <= 0x4000_0000_0000_0000,
                0 <= rec <= 0x1_0000_0100,
        ;
    }
    let ids: u128 = 4 * ((n_chunk * n_ctx) as u128);
    let records: u128 = (n_chunk * per) as u128 * (rec as u128);
    let want: u128 = 20 + ids + records;
    if want > usize::MAX as u128 {
        None
    } else {
        Some(want as usize)
    }
}

proof fn lemma_file_holds_ids(n_ctx: int, n_vocab: int, n_chunk: int)
    requires
        n_ctx > 0,
        n_vocab > 0,
        n_chunk > 0,
    ensures
        0 <= n_chunk * n_ctx,
        0 <= scored(n_ctx) < n_ctx,
        0 <= n_chunk * scored(n_ctx),
        0 <= (n_chunk * scored(n_ctx)) * record_len(n_vocab),
        20 + 4 * (n_chunk * n_ctx) <= file_len(n_ctx, n_vocab, n_chunk),
{
    assert(0 <= n_chunk * n_ctx) by (nonlinear_arith)
        requires
            n_chunk > 0,
            n_ctx > 0,
    ;
    let s = scored(n_ctx);
    assert(0 <= n_chunk * s) by (nonlinear_arith)
        requires
            n_chunk > 0,
            s >= 0,
    ;
    let k = n_chunk * s;
    let r = record_len(n_vocab);
    assert(0 <= k * r) by (nonlinear_arith)
        requires
            k >= 0,
            r >= 0,
    ;
}

/// Record `i`'s place: its bytes are in the file, its chunk and position in
/// the text.
proof fn lemma_record_place(v: KldView, i: int)
    requires
        v.n_ctx > 0,
        v.n_vocab > 0,
        v.n_chunk > 0,
        v.bytes.len() == file_len(v.n_ctx, v.n_vocab, v.n_chunk),
        0 <= i < v.n_records(),
    ensures
        scored(v.n_ctx) > 0,
        20 + 4 * (v.n_chunk * v.n_ctx) <= v.record_start(i),
        v.record_start(i) + record_len(v.n_vocab) <= v.bytes.len(),
        0 <= i / scored(v.n_ctx) < v.n_chunk,
        0 <= i % scored(v.n_ctx) < scored(v.n_ctx),
        0 <= (i / scored(v.n_ctx)) * v.n_ctx + v.n_ctx / 2 + i % scored(v.n_ctx) + 1 < v.n_chunk
            * v.n_ctx,
{
    let per = scored(v.n_ctx);
    let r = record_len(v.n_vocab);
    let n = v.n_records();
    assert(per > 0) by (nonlinear_arith)
        requires
            v.n_chunk * per > 0,
            v.n_chunk > 0,
    ;
    assert(i * r + r <= n * r) by (nonlinear_arith)
        requires
            i + 1 <= n,
            r > 0,
    ;
    assert(0 <= i * r) by (nonlinear_arith)
        requires
            0 <= i,
            r > 0,
    ;
    vstd::arithmetic::div_mod::lemma_fundamental_div_mod(i, per);
    vstd::arithmetic::div_mod::lemma_div_pos_is_pos(i, per);
    let c = i / per;
    assert(c < v.n_chunk) by (nonlinear_arith)
        requires
            per * c <= i,
            i < v.n_chunk * per,
            per > 0,
    ;
    assert(c * v.n_ctx + v.n_ctx <= v.n_chunk * v.n_ctx) by (nonlinear_arith)
        requires
            c + 1 <= v.n_chunk,
            v.n_ctx > 0,
    ;
    assert(0 <= c * v.n_ctx) by (nonlinear_arith)
        requires
            0 <= c,
            v.n_ctx > 0,
    ;
}

impl<'a> KldBase<'a> {
    /// The fields are those of a base file.
    pub closed spec fn wf(&self) -> bool {
        &&& self@.valid()
        &&& self.record_bytes == record_len(self.n_vocab as int)
        &&& self.tokens@ == self@.ids()
        &&& self.n_vocab < 0x8000_0000
    }

    /// Check `bytes` against ik's layout: the magic; positive sizes whose
    /// `n_vocab` is `want_vocab`; a length equal to the one they imply; every
    /// token id below `n_vocab`. The records are read when asked for, not here.
    pub fn open(bytes: &'a [u8], want_vocab: usize) -> (r: Result<KldBase<'a>, KldError>)
        ensures
            match r {
                Ok(base) => read(bytes@, Some(want_vocab)) == Ok::<KldView, KldError>(base@)
                    && base.wf(),
                Err(e) => read(bytes@, Some(want_vocab)) == Err::<KldView, KldError>(e),
            },
    {
        Self::map_checked(bytes, Some(want_vocab))
    }

    /// [`KldBase::open`] with the vocabulary the file's own header states: for
    /// comparing two base files with each other ([`Pair`]), where neither side
    /// is the model file.
    pub fn open_own_vocab(bytes: &'a [u8]) -> (r: Result<KldBase<'a>, KldError>)
        ensures
            match r {
                Ok(base) => read(bytes@, None) == Ok::<KldView, KldError>(base@) && base.wf(),
                Err(e) => read(bytes@, None) == Err::<KldView, KldError>(e),
            },
    {
        Self::map_checked(bytes, None)
    }

    fn map_checked(bytes: &'a [u8], want_vocab: Option<usize>) -> (r: Result<
        KldBase<'a>,
        KldError,
    >)
        ensures
            match r {
                Ok(base) => read(bytes@, want_vocab) == Ok::<KldView, KldError>(base@)
                    && base.wf(),
                Err(e) => read(bytes@, want_vocab) == Err::<KldView, KldError>(e),
            },
    {
        let len: usize = bytes.len();
        if len < 20 {
            return Err(KldError::Short);
        }
        let is_magic: bool = bytes[0] == 95 && bytes[1] == 108 && bytes[2] == 111 && bytes[3] == 103
            && bytes[4] == 105 && bytes[5] == 116 && bytes[6] == 115 && bytes[7] == 95;
        proof {
            if is_magic {
                assert(bytes@.take(8) =~= magic());
            } else {
                assert(bytes@.take(8) != magic()) by {
                    if bytes@.take(8) == magic() {
                        assert forall|k: int| 0 <= k < 8 implies bytes@[k] == magic()[k] by {
                            assert(bytes@.take(8)[k] == magic()[k]);
                        }
                    }
                }
            }
        }
        if !is_magic {
            return Err(KldError::Magic);
        }
        let c: i64 = le_i32(bytes, 8);
        if c <= 0 {
            return Err(KldError::Size(0));
        }
        let v: i64 = le_i32(bytes, 12);
        if v <= 0 {
            return Err(KldError::Size(1));
        }
        let k: i64 = le_i32(bytes, 16);
        if k <= 0 {
            return Err(KldError::Size(2));
        }
        if let Some(want) = want_vocab {
            if want as u128 != v as u128 {
                return Err(KldError::Vocab);
            }
        }
        let want: usize = match layout_bytes(c as u64, v as u64, k as u64) {
            None => {
                return Err(KldError::Overflow);
            },
            Some(n) => n,
        };
        if len != want {
            return Err(KldError::Length);
        }
        proof {
            lemma_file_holds_ids(c as int, v as int, k as int);
            assert(c <= k * c) by (nonlinear_arith)
                requires
                    k >= 1,
                    c >= 1,
            ;
            assert(k <= k * c) by (nonlinear_arith)
                requires
                    k >= 1,
                    c >= 1,
            ;
        }
        let n_ids: usize = (k as usize) * (c as usize);
        let mut tokens: Vec<u32> = Vec::new();
        let mut i: usize = 0;
        while i < n_ids
            invariant
                i <= n_ids == k * c,
                20 + 4 * n_ids <= bytes@.len() <= usize::MAX,
                0 < v < 0x8000_0000,
                first_bad_id(bytes@, v as int, n_ids as int, 0) == first_bad_id(
                    bytes@,
                    v as int,
                    n_ids as int,
                    i as int,
                ),
                tokens@.len() == i,
                forall|m: int| 0 <= m < i ==> #[trigger] tokens@[m] == id_at(bytes@, m),
                read(bytes@, want_vocab) == (match first_bad_id(
                    bytes@,
                    v as int,
                    n_ids as int,
                    0,
                ) {
                    Some(i) => Err::<KldView, KldError>(KldError::Id(i as usize)),
                    None => Ok(
                        KldView {
                            bytes: bytes@,
                            n_ctx: c as int,
                            n_vocab: v as int,
                            n_chunk: k as int,
                        },
                    ),
                }),
            decreases n_ids - i,
        {
            let id: i64 = le_i32(bytes, 20 + 4 * i);
            if id < 0 || id >= v {
                return Err(KldError::Id(i));
            }
            tokens.push(id as u32);
            i += 1;
        }
        let r = KldBase {
            map: bytes,
            n_ctx: c as usize,
            n_vocab: v as usize,
            n_chunk: k as usize,
            record_bytes: 2 * (v as u64 + (v as u64) % 2 + 4),
            tokens,
        };
        assert(r.tokens@ =~= r@.ids());
        Ok(r)
    }

    /// Ids per chunk.
    pub fn n_ctx(&self) -> (r: usize)
        ensures
            r == self@.n_ctx,
    {
        self.n_ctx
    }

    /// Entries per record: the model's vocabulary.
    pub fn n_vocab(&self) -> (r: usize)
        ensures
            r == self@.n_vocab,
    {
        self.n_vocab
    }

    /// Chunks ik scored.
    pub fn n_chunk(&self) -> (r: usize)
        ensures
            r == self@.n_chunk,
    {
        self.n_chunk
    }

    /// The first position ik scores in a chunk, `n_ctx / 2`.
    pub fn first_scored(&self) -> (r: usize)
        ensures
            r == self@.n_ctx / 2,
    {
        self.n_ctx / 2
    }

    /// Positions scored per chunk: `first_scored() ..= n_ctx - 2`.
    pub fn scored_per_chunk(&self) -> (r: usize)
        requires
            self.wf(),
        ensures
            r == scored(self@.n_ctx),
    {
        scored_per_chunk(self.n_ctx)
    }

    /// Every id ik evaluated, `n_chunk * n_ctx`, chunk after chunk.
    pub fn tokens(&self) -> (r: &[u32])
        requires
            self.wf(),
        ensures
            r@ == self@.ids(),
    {
        self.tokens.as_slice()
    }

    /// Chunk `chunk`'s `n_ctx` ids; `None` past the last chunk.
    pub fn chunk_tokens(&self, chunk: usize) -> (r: Option<&[u32]>)
        requires
            self.wf(),
        ensures
            match r {
                Some(ids) => chunk < self@.n_chunk && ids@ == self@.ids().subrange(
                    chunk * self@.n_ctx,
                    chunk * self@.n_ctx + self@.n_ctx,
                ),
                None => chunk >= self@.n_chunk,
            },
    {
        if chunk >= self.n_chunk {
            return None;
        }
        proof {
            let (a, c, n) = (chunk as int, self.n_ctx as int, self.n_chunk as int);
            assert(a * c + c <= n * c) by (nonlinear_arith)
                requires
                    a + 1 <= n,
                    c > 0,
            ;
            assert(0 <= a * c) by (nonlinear_arith)
                requires
                    a >= 0,
                    c > 0,
            ;
        }
        let len: usize = self.tokens.len();
        let from: usize = chunk * self.n_ctx;
        Some(slice_subrange(self.tokens.as_slice(), from, from + self.n_ctx))
    }

    /// How many records the file holds.
    pub fn n_records(&self) -> (r: usize)
        requires
            self.wf(),
        ensures
            r == self@.n_records(),
    {
        let per: usize = scored_per_chunk(self.n_ctx);
        proof {
            let (s, c, n) = (per as int, self.n_ctx as int, self.n_chunk as int);
            assert(n * s <= n * c) by (nonlinear_arith)
                requires
                    n > 0,
                    s <= c,
            ;
            lemma_file_holds_ids(c, self.n_vocab as int, n);
        }
        let len: usize = self.map.len();
        self.n_chunk * per
    }

    /// Record `i` in file order.
    pub fn record_at(&self, i: usize) -> (r: Record<'a>)
        requires
            self.wf(),
            i < self@.n_records(),
        ensures
            r@ == self@.record(i as int),
            r.next < self@.n_vocab,
            entries(r.levels@) == self@.n_vocab,
    {
        let per: usize = scored_per_chunk(self.n_ctx);
        proof {
            lemma_record_place(self@, i as int);
            lemma_file_holds_ids(self@.n_ctx, self@.n_vocab, self@.n_chunk);
        }
        let len: usize = self.map.len();
        let ids: usize = self.tokens.len();
        let chunk: usize = i / per;
        let pos: usize = self.n_ctx / 2 + i % per;
        proof {
            let (a, b) = (i as int, self.record_bytes as int);
            assert(0 <= a * b) by (nonlinear_arith)
                requires
                    a >= 0,
                    b >= 0,
            ;
            let (a, b) = (chunk as int, self.n_ctx as int);
            assert(0 <= a * b) by (nonlinear_arith)
                requires
                    a >= 0,
                    b >= 0,
            ;
            lemma_good_ids(self@, chunk * self.n_ctx + pos + 1);
        }
        let record_bytes: usize = self.record_bytes as usize;
        let at: usize = 20 + 4 * ids + i * record_bytes;
        let next: u32 = self.tokens[chunk * self.n_ctx + pos + 1];
        let levels: &'a [u8] = slice_subrange(self.map, at + 8, at + 8 + 2 * self.n_vocab);
        Record {
            chunk,
            pos,
            next,
            scale: le_u32(self.map, at),
            min_log_prob: le_u32(self.map, at + 4),
            levels,
        }
    }

    /// The record at position `pos` of chunk `chunk`; `None` unless ik scored
    /// that position.
    pub fn record(&self, chunk: usize, pos: usize) -> (r: Option<Record<'a>>)
        requires
            self.wf(),
        ensures
            ({
                let v = self@;
                let is_scored = chunk < v.n_chunk && v.n_ctx / 2 <= pos <= v.n_ctx - 2;
                match r {
                    Some(rec) => {
                        &&& is_scored
                        &&& rec@ == v.record(chunk * scored(v.n_ctx) + (pos - v.n_ctx / 2))
                        &&& rec.chunk == chunk
                        &&& rec.pos == pos
                    },
                    None => !is_scored,
                }
            }),
    {
        let first: usize = self.n_ctx / 2;
        if pos < first {
            return None;
        }
        let k: usize = pos - first;
        let per: usize = scored_per_chunk(self.n_ctx);
        if chunk >= self.n_chunk || k >= per {
            return None;
        }
        proof {
            let (a, s, n) = (chunk as int, per as int, self.n_chunk as int);
            assert(a * s + s <= n * s) by (nonlinear_arith)
                requires
                    a + 1 <= n,
                    s > 0,
            ;
            assert(0 <= a * s) by (nonlinear_arith)
                requires
                    a >= 0,
                    s > 0,
            ;
            lemma_record_index(chunk as int, per as int, k as int);
        }
        let total: usize = self.n_records();
        Some(self.record_at(chunk * per + k))
    }
}

proof fn lemma_record_index(chunk: int, per: int, k: int)
    requires
        0 <= chunk,
        0 <= k < per,
    ensures
        (chunk * per + k) / per == chunk,
        (chunk * per + k) % per == k,
{
    vstd::arithmetic::div_mod::lemma_fundamental_div_mod_converse(
        chunk * per + k,
        per,
        chunk,
        k,
    );
}

/// The ids of a valid file are below its vocabulary.
proof fn lemma_good_ids(v: KldView, i: int)
    requires
        v.valid(),
        0 <= i < v.n_chunk * v.n_ctx,
    ensures
        0 <= id_at(v.bytes, i) < v.n_vocab,
{
    lemma_no_bad_id(v.bytes, v.n_vocab, v.n_chunk * v.n_ctx, 0, i);
}

proof fn lemma_no_bad_id(b: Seq<u8>, n_vocab: int, n: int, at: int, i: int)
    requires
        0 <= at <= i < n,
        first_bad_id(b, n_vocab, n, at) is None,
    ensures
        0 <= id_at(b, i) < n_vocab,
    decreases n - at,
{
    if at < i {
        lemma_no_bad_id(b, n_vocab, n, at + 1, i);
    }
}

// ------------------------------------------------------------ pairs

/// Why two files are not of one text.
#[derive(Clone, Copy, Debug, PartialEq, Eq, Structural)]
pub enum PairError {
    /// The ids per chunk differ.
    Ctx,
    /// The vocabularies differ.
    Vocab,
    /// This id differs.
    Ids(usize),
}

/// Two base files of one text, compared position by position: P is taken as
/// the truth and Q is scored against it, the order of ik's `--kl-divergence`,
/// whose base file is P.
#[derive(Debug)]
pub struct Pair<'a> {
    pub p: &'a KldBase<'a>,
    pub q: &'a KldBase<'a>,
    /// Chunks compared: the fewer of the two files'.
    pub n_chunk: usize,
}

/// The fewer of two files' chunks.
pub open spec fn fewer(a: int, b: int) -> int {
    if a <= b {
        a
    } else {
        b
    }
}

/// The first position from `at` on below `n` at which two lists differ.
pub open spec fn first_difference(a: Seq<u32>, b: Seq<u32>, n: int, at: int) -> Option<int>
    decreases n - at,
{
    if at < 0 || at >= n {
        None
    } else if a[at] != b[at] {
        Some(at)
    } else {
        first_difference(a, b, n, at + 1)
    }
}

/// What pairing two files gives: the chunks both hold, or what differs.
pub open spec fn paired(p: KldView, q: KldView) -> Result<int, PairError> {
    let n = fewer(p.n_chunk, q.n_chunk);
    if p.n_ctx != q.n_ctx {
        Err(PairError::Ctx)
    } else if p.n_vocab != q.n_vocab {
        Err(PairError::Vocab)
    } else {
        match first_difference(p.ids(), q.ids(), n * p.n_ctx, 0) {
            Some(i) => Err(PairError::Ids(i as usize)),
            None => Ok(n),
        }
    }
}

/// What two records of one position say of their most likely ids.
#[derive(Clone, Copy, Debug, PartialEq, Eq, Structural)]
pub struct Tops {
    /// P's most likely id: the first entry at its top level, the rule ik
    /// applies to its base record.
    pub top_p: u32,
    /// Q's most likely id by the same rule.
    pub top_q: u32,
    /// Entries at Q's top level. Above 1, the id Q's logits ranked first is one
    /// of them and the file does not say which.
    pub q_top_count: u32,
}

/// The first entry at a record's top level.
pub open spec fn top_entry(levels: Seq<u8>) -> int {
    first_at(levels, top_level(levels, entries(levels)), 0)
}

/// The entries at a record's top level.
pub open spec fn top_count(levels: Seq<u8>) -> nat {
    count_where(entries(levels), at_level(levels, top_level(levels, entries(levels))))
}

proof fn lemma_first_at(levels: Seq<u8>, level: int, at: int, i: int)
    requires
        0 <= at <= i < entries(levels),
        level_of(levels, i) == level,
        forall|k: int| at <= k < i ==> #[trigger] level_of(levels, k) != level,
    ensures
        first_at(levels, level, at) == i,
    decreases i - at,
{
    if at < i {
        assert(level_of(levels, at) != level);
        lemma_first_at(levels, level, at + 1, i);
    }
}

/// No entry is above the top level.
proof fn lemma_top_is_top(levels: Seq<u8>, n: int, k: int)
    requires
        0 <= k < n <= entries(levels),
    ensures
        level_of(levels, k) <= top_level(levels, n),
    decreases n,
{
    if k < n - 1 {
        lemma_top_is_top(levels, n - 1, k);
    }
}

proof fn lemma_nothing_above(levels: Seq<u8>, n: int, level: int)
    requires
        0 <= n <= entries(levels),
        level > top_level(levels, n),
    ensures
        count_where(n, at_level(levels, level)) == 0,
    decreases n,
{
    if n > 0 {
        lemma_nothing_above(levels, n - 1, level);
    }
}

/// The most likely entry of a record, the first at its top level, and how many
/// entries are there.
fn top_of(levels: &[u8]) -> (r: (u32, u32))
    requires
        0 < entries(levels@) <= u32::MAX,
    ensures
        r.0 == top_entry(levels@),
        r.1 == top_count(levels@),
{
    let n: usize = levels.len() / 2;
    let mut top: u32 = 0;
    let mut best: u32 = levels[0] as u32 + 256 * (levels[1] as u32);
    let mut count: u32 = 1;
    let mut k: usize = 1;
    proof {
        reveal_with_fuel(top_level, 2);
        reveal_with_fuel(count_where, 2);
    }
    while k < n
        invariant
            1 <= k <= n == entries(levels@) <= u32::MAX,
            levels@.len() <= usize::MAX,
            top < k,
            count <= k,
            best == top_level(levels@, k as int),
            level_of(levels@, top as int) == best,
            forall|m: int| 0 <= m < top ==> #[trigger] level_of(levels@, m) != best,
            count == count_where(k as int, at_level(levels@, best as int)),
        decreases n - k,
    {
        let q: u32 = levels[2 * k] as u32 + 256 * (levels[2 * k + 1] as u32);
        assert(q == level_of(levels@, k as int));
        if q > best {
            proof {
                assert forall|m: int| 0 <= m < k implies #[trigger] level_of(levels@, m) != q by {
                    lemma_top_is_top(levels@, k as int, m);
                }
                lemma_nothing_above(levels@, k as int, q as int);
            }
            top = k as u32;
            best = q;
            count = 1;
        } else if q == best {
            count += 1;
        }
        k += 1;
    }
    proof {
        lemma_first_at(levels@, best as int, 0, top as int);
    }
    (top, count)
}

/// The most likely ids of the records of one position in P and in Q.
pub fn compare_tops(p: &Record<'_>, q: &Record<'_>) -> (r: Tops)
    requires
        0 < entries(p.levels@) <= u32::MAX,
        0 < entries(q.levels@) <= u32::MAX,
    ensures
        r.top_p == top_entry(p.levels@),
        r.top_q == top_entry(q.levels@),
        r.q_top_count == top_count(q.levels@),
{
    let a: (u32, u32) = top_of(p.levels);
    let b: (u32, u32) = top_of(q.levels);
    Tops { top_p: a.0, top_q: b.0, q_top_count: b.1 }
}

impl<'a> Pair<'a> {
    /// Both files are base files of one text over the compared chunks.
    pub open spec fn wf(&self) -> bool {
        &&& self.p.wf()
        &&& self.q.wf()
        &&& paired(self.p@, self.q@) == Ok::<int, PairError>(self.n_chunk as int)
    }

    /// `p` and `q` over the chunks both hold: a file with more chunks is
    /// compared on its prefix. Refuses two files whose `n_ctx` or `n_vocab`
    /// differ, or whose ids differ anywhere in those chunks.
    pub fn new(p: &'a KldBase<'a>, q: &'a KldBase<'a>) -> (r: Result<Pair<'a>, PairError>)
        requires
            p.wf(),
            q.wf(),
        ensures
            match r {
                Ok(pair) => {
                    &&& paired(p@, q@) == Ok::<int, PairError>(pair.n_chunk as int)
                    &&& pair.p == p
                    &&& pair.q == q
                    &&& pair.wf()
                },
                Err(e) => paired(p@, q@) == Err::<int, PairError>(e),
            },
    {
        if p.n_ctx != q.n_ctx {
            return Err(PairError::Ctx);
        }
        if p.n_vocab != q.n_vocab {
            return Err(PairError::Vocab);
        }
        let n_chunk: usize = if p.n_chunk <= q.n_chunk {
            p.n_chunk
        } else {
            q.n_chunk
        };
        proof {
            let (n, a, b, c) = (
                n_chunk as int,
                p.n_chunk as int,
                q.n_chunk as int,
                p.n_ctx as int,
            );
            assert(0 <= n * c && n * c <= a * c && n * c <= b * c) by (nonlinear_arith)
                requires
                    0 <= n,
                    n <= a,
                    n <= b,
                    0 <= c,
            ;
        }
        let p_len: usize = p.tokens.len();
        let n_ids: usize = n_chunk * p.n_ctx;
        let mut i: usize = 0;
        while i < n_ids
            invariant
                i <= n_ids == n_chunk * p.n_ctx,
                n_ids <= p.tokens@.len(),
                n_ids <= q.tokens@.len(),
                p.wf(),
                q.wf(),
                p.n_ctx == q.n_ctx,
                p.n_vocab == q.n_vocab,
                n_chunk == fewer(p@.n_chunk, q@.n_chunk),
                first_difference(p@.ids(), q@.ids(), n_ids as int, 0) == first_difference(
                    p@.ids(),
                    q@.ids(),
                    n_ids as int,
                    i as int,
                ),
            decreases n_ids - i,
        {
            if p.tokens[i] != q.tokens[i] {
                return Err(PairError::Ids(i));
            }
            i += 1;
        }
        Ok(Pair { p, q, n_chunk })
    }

    /// The scored positions of the compared chunks.
    pub fn n_records(&self) -> (r: usize)
        requires
            self.wf(),
        ensures
            r == self.n_chunk * scored(self.p@.n_ctx),
            r <= self.p@.n_records(),
            r <= self.q@.n_records(),
    {
        let per: usize = self.p.scored_per_chunk();
        proof {
            let (n, a, b, s) = (
                self.n_chunk as int,
                self.p@.n_chunk,
                self.q@.n_chunk,
                per as int,
            );
            assert(0 <= n * s && n * s <= a * s && n * s <= b * s) by (nonlinear_arith)
                requires
                    0 <= n,
                    n <= a,
                    n <= b,
                    0 <= s,
            ;
        }
        let all: usize = self.p.n_records();
        self.n_chunk * per
    }

    /// P's and Q's records at the `i`-th scored position of the compared
    /// chunks, in file order.
    pub fn records(&self, i: usize) -> (r: (Record<'a>, Record<'a>))
        requires
            self.wf(),
            i < self.n_chunk * scored(self.p@.n_ctx),
        ensures
            r.0@ == self.p@.record(i as int),
            r.1@ == self.q@.record(i as int),
            entries(r.0.levels@) == self.p@.n_vocab,
            entries(r.1.levels@) == self.p@.n_vocab,
            r.0.next < self.p@.n_vocab,
            r.1.next < self.p@.n_vocab,
    {
        let n: usize = self.n_records();
        (self.p.record_at(i), self.q.record_at(i))
    }
}

// ------------------------------------------------------------ result lines

/// A run's result line: the last line of its log that opens with
/// `ppl tag=<tag> `, read field by field (`key=value`, space separated).
#[derive(Debug, Clone)]
pub struct ResultLine {
    pub line: String,
}

/// Why a field of a result line gives no number.
#[derive(Clone, Copy, Debug, PartialEq, Eq, Structural)]
pub enum FieldError {
    /// The line has no such field.
    Missing,
    /// The field is no number, or one above the greatest wanted.
    Malformed,
}

/// What a result line opens with.
pub open spec fn result_head(tag: Seq<char>) -> Seq<char> {
    "ppl tag="@ + tag + " "@
}

/// The last line that opens with `head`.
pub open spec fn last_opening(lines: Seq<Seq<char>>, head: Seq<char>) -> Option<Seq<char>>
    decreases lines.len(),
{
    if lines.len() == 0 {
        None
    } else if text::opens_with(lines.last(), head) {
        Some(lines.last())
    } else {
        last_opening(lines.drop_last(), head)
    }
}

/// What field `key` of the words from `at` on says: what follows the first
/// `key=`.
pub open spec fn field_of(words: Seq<Seq<char>>, key: Seq<char>, at: int) -> Option<Seq<char>>
    decreases words.len() - at,
{
    if at < 0 || at >= words.len() {
        None
    } else if text::opens_with(words[at], key + "="@) {
        Some(words[at].skip((key + "="@).len() as int))
    } else {
        field_of(words, key, at + 1)
    }
}

impl ResultLine {
    /// The result line of run `tag` in `log`; `None` when the log has none.
    pub fn find(log: &str, tag: &str) -> (r: Option<ResultLine>)
        ensures
            match r {
                Some(l) => last_opening(text::lines(log@), result_head(tag@)) == Some(l.line@),
                None => last_opening(text::lines(log@), result_head(tag@)) is None,
            },
    {
        let mut head: Vec<char> = text::chars_of("ppl tag=");
        text::push_str(&mut head, tag);
        text::push_str(&mut head, " ");
        let lines: Vec<Vec<char>> = text::lines_of(text::chars_of(log).as_slice());
        let ghost all = text::lines(log@);
        let mut i: usize = lines.len();
        assert(all.take(all.len() as int) =~= all);
        while i > 0
            invariant
                i <= lines@.len(),
                text::pieces(lines@) == all,
                all == text::lines(log@),
                head@ == result_head(tag@),
                last_opening(all, head@) == last_opening(all.take(i as int), head@),
            decreases i,
        {
            proof {
                assert(all.take(i as int).last() == lines@[i - 1]@);
                assert(all.take(i as int).drop_last() =~= all.take(i - 1));
            }
            if text::starts(lines[i - 1].as_slice(), head.as_slice()) {
                return Some(ResultLine { line: text::string_of(lines[i - 1].as_slice()) });
            }
            i -= 1;
        }
        None
    }

    /// The text of field `key`; `None` when the line has none.
    pub fn text(&self, key: &str) -> (r: Option<String>)
        ensures
            match r {
                Some(v) => field_of(text::words(self.line@), key@, 0) == Some(v@),
                None => field_of(text::words(self.line@), key@, 0) is None,
            },
    {
        let mut want: Vec<char> = text::chars_of(key);
        text::push_str(&mut want, "=");
        let words: Vec<Vec<char>> = text::words_of(text::chars_of(self.line.as_str()).as_slice());
        let ghost all = text::words(self.line@);
        let mut i: usize = 0;
        while i < words.len()
            invariant
                i <= words@.len(),
                text::pieces(words@) == all,
                all == text::words(self.line@),
                want@ == key@ + "="@,
                field_of(all, key@, 0) == field_of(all, key@, i as int),
            decreases words@.len() - i,
        {
            assert(all[i as int] == words@[i as int]@);
            if text::starts(words[i].as_slice(), want.as_slice()) {
                let rest: Vec<char> = text::piece(words[i].as_slice(), want.len(), words[i].len());
                assert(rest@ =~= words@[i as int]@.skip(want@.len() as int));
                return Some(text::string_of(rest.as_slice()));
            }
            i += 1;
        }
        None
    }

    /// Field `key` as a number, at most `max`.
    pub fn parse(&self, key: &str, max: u64) -> (r: Result<u64, FieldError>)
        ensures
            ({
                let field = field_of(text::words(self.line@), key@, 0);
                match r {
                    Ok(n) => field is Some && text::number(field->0, max as nat) == Some(n as nat),
                    Err(FieldError::Missing) => field is None,
                    Err(FieldError::Malformed) => field is Some && text::number(
                        field->0,
                        max as nat,
                    ) is None,
                }
            }),
    {
        match self.text(key) {
            None => Err(FieldError::Missing),
            Some(v) => match text::parse_number(text::chars_of(v.as_str()).as_slice(), max) {
                Some(n) => Ok(n),
                None => Err(FieldError::Malformed),
            },
        }
    }
}

// ------------------------------------------------------------ laws

/// The records tile the file behind its ids: the first starts where the ids
/// end, each ends where the next starts, and the last ends with the file.
pub proof fn law_records_tile_the_file(v: KldView, i: int)
    requires
        v.valid(),
        0 <= i < v.n_records(),
    ensures
        v.record_start(0) == 20 + 4 * (v.n_chunk * v.n_ctx),
        v.record_start(i) + record_len(v.n_vocab) == v.record_start(i + 1),
        v.record_start(v.n_records()) == v.bytes.len(),
{
    let r = record_len(v.n_vocab);
    assert(0 * r == 0) by (nonlinear_arith);
    assert(i * r + r == (i + 1) * r) by (nonlinear_arith);
}

/// Every record scores a position of its chunk's second half against an id of
/// the text: the one after it, in the same chunk.
pub proof fn law_records_score_the_second_half(v: KldView, i: int)
    requires
        v.valid(),
        0 <= i < v.n_records(),
    ensures
        0 <= v.record(i).chunk < v.n_chunk,
        v.n_ctx / 2 <= v.record(i).pos <= v.n_ctx - 2,
        v.record(i).next == v.ids()[v.record(i).chunk * v.n_ctx + v.record(i).pos + 1],
        v.record(i).next < v.n_vocab,
        v.record(i).levels.len() == 2 * v.n_vocab,
{
    lemma_record_place(v, i);
    lemma_good_ids(v, v.record(i).chunk * v.n_ctx + v.record(i).pos + 1);
}

/// A file pairs with itself over all its chunks.
pub proof fn law_a_file_pairs_with_itself(v: KldView)
    ensures
        paired(v, v) == Ok::<int, PairError>(v.n_chunk),
{
    lemma_no_difference(v.ids(), v.n_chunk * v.n_ctx, 0);
}

proof fn lemma_no_difference(a: Seq<u32>, n: int, at: int)
    ensures
        first_difference(a, a, n, at) is None,
    decreases n - at,
{
    if 0 <= at < n {
        lemma_no_difference(a, n, at + 1);
    }
}

// ------------------------------------------------------------ the file's bytes

/// Byte `k` of a number written least significant byte first.
pub open spec fn byte_of(n: int, k: int) -> u8 {
    if k == 0 {
        (n % 256) as u8
    } else if k == 1 {
        (n / 256 % 256) as u8
    } else if k == 2 {
        (n / 65536 % 256) as u8
    } else {
        (n / 16777216 % 256) as u8
    }
}

/// The sizes and the ids of a file that opens give its first bytes back: each
/// written least significant byte first is the four bytes it was read from. So
/// two files that read alike are the same bytes up to their records.
pub proof fn law_a_file_is_what_it_reads(b: Seq<u8>, want: Option<usize>, v: KldView, i: int, k: int)
    requires
        read(b, want) == Ok::<KldView, KldError>(v),
        0 <= i < v.ids().len(),
        0 <= k < 4,
    ensures
        v.ids().len() == v.n_chunk * v.n_ctx,
        v.ids()[i] < v.n_vocab,
        b[20 + 4 * i + k] == byte_of(v.ids()[i] as int, k),
        b[8 + k] == byte_of(v.n_ctx, k),
        b[12 + k] == byte_of(v.n_vocab, k),
        b[16 + k] == byte_of(v.n_chunk, k),
        b[0] == 0x5f && b[1] == 0x6c && b[2] == 0x6f && b[3] == 0x67 && b[4] == 0x69 && b[5] == 0x74
            && b[6] == 0x73 && b[7] == 0x5f,
        v.bytes == b,
        want is Some ==> want->0 == v.n_vocab,
{
    lemma_no_bad_id(b, v.n_vocab, v.n_chunk * v.n_ctx, 0, i);
    lemma_bytes_of(b, 20 + 4 * i);
    lemma_bytes_of(b, 8);
    lemma_bytes_of(b, 12);
    lemma_bytes_of(b, 16);
    assert forall|m: int| 0 <= m < 8 implies b[m] == magic()[m] by {
        assert(b.take(8)[m] == magic()[m]);
    }
}

proof fn lemma_bytes_of(b: Seq<u8>, at: int)
    ensures
        forall|k: int| 0 <= k < 4 ==> b[at + k] == #[trigger] byte_of(le_at(b, at), k),
{
    let (p, q, r, s) = (b[at] as int, b[at + 1] as int, b[at + 2] as int, b[at + 3] as int);
    let n = le_at(b, at);
    assert(n % 256 == p);
    assert(n / 256 % 256 == q);
    assert(n / 65536 % 256 == r);
    assert(n / 16777216 % 256 == s);
    assert forall|k: int| 0 <= k < 4 implies b[at + k] == #[trigger] byte_of(n, k) by {}
}

/// A number written in four bytes, least significant first.
pub open spec fn four_bytes(n: int) -> Seq<u8> {
    Seq::new(4, |k: int| byte_of(n, k))
}

/// Ids written one after the other.
pub open spec fn id_bytes(ids: Seq<u32>) -> Seq<u8> {
    Seq::new(4 * ids.len(), |k: int| byte_of(ids[k / 4] as int, k % 4))
}

/// A base file as it is written: the magic, the sizes, the ids and the records.
pub open spec fn written(
    n_ctx: int,
    n_vocab: int,
    n_chunk: int,
    ids: Seq<u32>,
    records: Seq<u8>,
) -> Seq<u8> {
    seq![0x5fu8, 0x6c, 0x6f, 0x67, 0x69, 0x74, 0x73, 0x5f] + four_bytes(n_ctx) + four_bytes(n_vocab)
        + four_bytes(n_chunk) + id_bytes(ids) + records
}

/// What is written opens, and reads back as it was written: every size, every id
/// and every record. A record of `n_vocab` entries takes 8 bytes and two an entry,
/// two more where the entries are odd; a chunk has one for each position from
/// its half to the last but one.
pub proof fn law_what_is_written_reads_back(
    n_ctx: int,
    n_vocab: int,
    n_chunk: int,
    ids: Seq<u32>,
    records: Seq<u8>,
    chunk: int,
    pos: int,
)
    requires
        0 < n_ctx < 0x8000_0000,
        0 < n_vocab < 0x8000_0000,
        0 < n_chunk < 0x8000_0000,
        ids.len() == n_chunk * n_ctx,
        forall|i: int| 0 <= i < ids.len() ==> #[trigger] ids[i] < n_vocab,
        records.len() == (n_chunk * ((n_ctx - 1) / 2)) * (8 + 2 * n_vocab + 2 * (n_vocab % 2)),
        written(n_ctx, n_vocab, n_chunk, ids, records).len() <= usize::MAX,
        0 <= chunk < n_chunk,
        n_ctx / 2 <= pos <= n_ctx - 2,
    ensures
        ({
            let b = written(n_ctx, n_vocab, n_chunk, ids, records);
            let v = KldView { bytes: b, n_ctx, n_vocab, n_chunk };
            let i = chunk * ((n_ctx - 1) / 2) + (pos - n_ctx / 2);
            let at = i * (8 + 2 * n_vocab + 2 * (n_vocab % 2));
            &&& read(b, None) == Ok::<KldView, KldError>(v)
            &&& n_vocab <= usize::MAX ==> read(b, Some(n_vocab as usize)) == Ok::<
                KldView,
                KldError,
            >(v)
            &&& v.ids() == ids
            &&& v.n_records() == n_chunk * ((n_ctx - 1) / 2)
            &&& 0 <= i < v.n_records()
            &&& v.record(i).chunk == chunk
            &&& v.record(i).pos == pos
            &&& v.record(i).next == ids[chunk * n_ctx + pos + 1]
            &&& v.record(i).levels == records.subrange(at + 8, at + 8 + 2 * n_vocab)
            &&& four_bytes(v.record(i).scale) == records.subrange(at, at + 4)
            &&& four_bytes(v.record(i).min_log_prob) == records.subrange(at + 4, at + 8)
        }),
{
    let b = written(n_ctx, n_vocab, n_chunk, ids, records);
    let v = KldView { bytes: b, n_ctx, n_vocab, n_chunk };
    let per = (n_ctx - 1) / 2;
    let rec = 8 + 2 * n_vocab + 2 * (n_vocab % 2);
    lemma_written_opens(n_ctx, n_vocab, n_chunk, ids, records);
    let k = pos - n_ctx / 2;
    let i = chunk * per + k;
    assert(0 <= i && i < n_chunk * per) by (nonlinear_arith)
        requires
            0 <= chunk < n_chunk,
            0 <= k < per,
            i == chunk * per + k,
    ;
    lemma_written_record(n_ctx, n_vocab, n_chunk, ids, records, i);
    let next = chunk * n_ctx + pos + 1;
    assert(0 <= next && next < n_chunk * n_ctx) by (nonlinear_arith)
        requires
            0 <= chunk < n_chunk,
            0 <= pos <= n_ctx - 2,
            next == chunk * n_ctx + pos + 1,
    ;
    lemma_written_id(n_ctx, n_vocab, n_chunk, ids, records, next);
    lemma_record_stands(v, chunk, k);
}

proof fn lemma_record_stands(v: KldView, chunk: int, k: int)
    requires
        0 <= chunk,
        0 <= k < (v.n_ctx - 1) / 2,
    ensures
        ({
            let r = v.record(chunk * ((v.n_ctx - 1) / 2) + k);
            &&& r.chunk == chunk
            &&& r.pos == v.n_ctx / 2 + k
            &&& r.next == id_at(v.bytes, chunk * v.n_ctx + (v.n_ctx / 2 + k) + 1)
        }),
        v.n_records() == v.n_chunk * ((v.n_ctx - 1) / 2),
{
    let per = (v.n_ctx - 1) / 2;
    assert(per == scored(v.n_ctx));
    lemma_record_index(chunk, per, k);
}

proof fn lemma_written_opens(
    n_ctx: int,
    n_vocab: int,
    n_chunk: int,
    ids: Seq<u32>,
    records: Seq<u8>,
)
    requires
        0 < n_ctx < 0x8000_0000,
        0 < n_vocab < 0x8000_0000,
        0 < n_chunk < 0x8000_0000,
        ids.len() == n_chunk * n_ctx,
        forall|i: int| 0 <= i < ids.len() ==> #[trigger] ids[i] < n_vocab,
        records.len() == (n_chunk * ((n_ctx - 1) / 2)) * (8 + 2 * n_vocab + 2 * (n_vocab % 2)),
        written(n_ctx, n_vocab, n_chunk, ids, records).len() <= usize::MAX,
    ensures
        ({
            let b = written(n_ctx, n_vocab, n_chunk, ids, records);
            let v = KldView { bytes: b, n_ctx, n_vocab, n_chunk };
            &&& read(b, None) == Ok::<KldView, KldError>(v)
            &&& n_vocab <= usize::MAX ==> read(b, Some(n_vocab as usize)) == Ok::<
                KldView,
                KldError,
            >(v)
            &&& v.ids() == ids
        }),
{
    let b = written(n_ctx, n_vocab, n_chunk, ids, records);
    let v = KldView { bytes: b, n_ctx, n_vocab, n_chunk };
    assert((n_ctx - 1) / 2 == scored(n_ctx));
    assert(8 + 2 * n_vocab + 2 * (n_vocab % 2) == record_len(n_vocab));
    assert(b.take(8) =~= magic());
    lemma_four_read(b, 8, n_ctx);
    lemma_four_read(b, 12, n_vocab);
    lemma_four_read(b, 16, n_chunk);
    let n = n_chunk * n_ctx;
    assert(b.len() == file_len(n_ctx, n_vocab, n_chunk));
    assert forall|i: int| 0 <= i < n implies #[trigger] id_at(b, i) == ids[i] by {
        lemma_written_id(n_ctx, n_vocab, n_chunk, ids, records, i);
    }
    lemma_no_bad_ids(b, n_vocab, n, 0);
    assert(v.ids() =~= ids);
}

proof fn lemma_written_id(
    n_ctx: int,
    n_vocab: int,
    n_chunk: int,
    ids: Seq<u32>,
    records: Seq<u8>,
    i: int,
)
    requires
        0 <= i < ids.len(),
        ids[i] < 0x8000_0000,
    ensures
        id_at(written(n_ctx, n_vocab, n_chunk, ids, records), i) == ids[i],
{
    let b = written(n_ctx, n_vocab, n_chunk, ids, records);
    assert forall|k: int| 0 <= k < 4 implies b[20 + 4 * i + k] == #[trigger] byte_of(
        ids[i] as int,
        k,
    ) by {
        assert((4 * i + k) / 4 == i && (4 * i + k) % 4 == k);
        assert(b[20 + (4 * i + k)] == id_bytes(ids)[4 * i + k]);
    }
    lemma_four_read(b, 20 + 4 * i, ids[i] as int);
}

/// A byte of the records stands behind the sizes and the ids.
proof fn lemma_written_byte(
    n_ctx: int,
    n_vocab: int,
    n_chunk: int,
    ids: Seq<u32>,
    records: Seq<u8>,
    j: int,
)
    requires
        0 <= j < records.len(),
    ensures
        written(n_ctx, n_vocab, n_chunk, ids, records)[20 + 4 * ids.len() + j] == records[j],
        written(n_ctx, n_vocab, n_chunk, ids, records).len() == 20 + 4 * ids.len() + records.len(),
{
}

proof fn lemma_written_record(
    n_ctx: int,
    n_vocab: int,
    n_chunk: int,
    ids: Seq<u32>,
    records: Seq<u8>,
    i: int,
)
    requires
        0 < n_ctx < 0x8000_0000,
        0 < n_vocab < 0x8000_0000,
        0 < n_chunk < 0x8000_0000,
        ids.len() == n_chunk * n_ctx,
        records.len() == (n_chunk * ((n_ctx - 1) / 2)) * (8 + 2 * n_vocab + 2 * (n_vocab % 2)),
        0 <= i < n_chunk * ((n_ctx - 1) / 2),
        read(written(n_ctx, n_vocab, n_chunk, ids, records), None) == Ok::<KldView, KldError>(
            (KldView { bytes: written(n_ctx, n_vocab, n_chunk, ids, records), n_ctx, n_vocab, n_chunk }),
        ),
    ensures
        ({
            let b = written(n_ctx, n_vocab, n_chunk, ids, records);
            let v = KldView { bytes: b, n_ctx, n_vocab, n_chunk };
            let at = i * (8 + 2 * n_vocab + 2 * (n_vocab % 2));
            &&& v.record(i).levels == records.subrange(at + 8, at + 8 + 2 * n_vocab)
            &&& four_bytes(v.record(i).scale) == records.subrange(at, at + 4)
            &&& four_bytes(v.record(i).min_log_prob) == records.subrange(at + 4, at + 8)
        }),
{
    let b = written(n_ctx, n_vocab, n_chunk, ids, records);
    let v = KldView { bytes: b, n_ctx, n_vocab, n_chunk };
    let rec = 8 + 2 * n_vocab + 2 * (n_vocab % 2);
    assert(rec == record_len(n_vocab));
    let n = n_chunk * n_ctx;
    let count = n_chunk * ((n_ctx - 1) / 2);
    let at = i * rec;
    assert(0 <= at && at + rec <= count * rec) by (nonlinear_arith)
        requires
            0 <= i < count,
            0 <= rec,
            at == i * rec,
    ;
    lemma_record_place(v, i);
    let from = 20 + 4 * n + at;
    assert(v.record_start(i) == from);
    assert forall|c: int| 0 <= c < rec implies b[from + c] == #[trigger] records[at + c] by {
        lemma_written_byte(n_ctx, n_vocab, n_chunk, ids, records, at + c);
    }
    let levels = records.subrange(at + 8, at + 8 + 2 * n_vocab);
    assert(b.subrange(from + 8, from + 8 + 2 * n_vocab) =~= levels) by {
        assert forall|c: int| 0 <= c < 2 * n_vocab implies b.subrange(
            from + 8,
            from + 8 + 2 * n_vocab,
        )[c] == levels[c] by {
            assert(b[from + (8 + c)] == records[at + (8 + c)]);
        }
    }
    lemma_bytes_of(b, from);
    lemma_bytes_of(b, from + 4);
    assert(four_bytes(v.record(i).scale) =~= records.subrange(at, at + 4)) by {
        assert forall|c: int| 0 <= c < 4 implies four_bytes(v.record(i).scale)[c]
            == records.subrange(at, at + 4)[c] by {
            assert(b[from + c] == byte_of(le_at(b, from), c));
            assert(records[at + c] == b[from + c]);
        }
    }
    assert(four_bytes(v.record(i).min_log_prob) =~= records.subrange(at + 4, at + 8)) by {
        assert forall|c: int| 0 <= c < 4 implies four_bytes(v.record(i).min_log_prob)[c]
            == records.subrange(at + 4, at + 8)[c] by {
            assert(b[from + 4 + c] == byte_of(le_at(b, from + 4), c));
            assert(records[at + (4 + c)] == b[from + (4 + c)]);
        }
    }
}

/// Four bytes of a number read as that number.
proof fn lemma_four_read(b: Seq<u8>, at: int, n: int)
    requires
        0 <= n < 0x8000_0000,
        forall|k: int| 0 <= k < 4 ==> b[at + k] == #[trigger] byte_of(n, k),
    ensures
        le_at(b, at) == n,
        signed32(le_at(b, at)) == n,
{
    assert(b[at + 0] == byte_of(n, 0) && b[at + 1] == byte_of(n, 1));
    assert(b[at + 2] == byte_of(n, 2) && b[at + 3] == byte_of(n, 3));
    assert(n / 65536 == n / 256 / 256);
    assert(n / 16777216 == n / 65536 / 256);
}

proof fn lemma_no_bad_ids(b: Seq<u8>, n_vocab: int, n: int, at: int)
    requires
        0 <= at,
        forall|i: int| 0 <= i < n ==> 0 <= #[trigger] id_at(b, i) < n_vocab,
    ensures
        first_bad_id(b, n_vocab, n, at) is None,
    decreases n - at,
{
    if at < n {
        assert(0 <= id_at(b, at) < n_vocab);
        lemma_no_bad_ids(b, n_vocab, n, at + 1);
    }
}

// ------------------------------------------------------------ levels and pairs

/// An entry's level is its two bytes, the low one first.
pub proof fn law_a_level_is_its_bytes(levels: Seq<u8>, k: int)
    requires
        0 <= k < levels.len() as int / 2,
    ensures
        entries(levels) == levels.len() / 2,
        level_of(levels, k) % 256 == levels[2 * k],
        level_of(levels, k) / 256 == levels[2 * k + 1],
{
}

/// The most likely entry of a record is the first that no other is above, and the
/// count beside it is of the entries that are level with it.
pub proof fn law_the_top_entry_is_the_first_highest(levels: Seq<u8>, k: int)
    requires
        0 <= k < entries(levels),
    ensures
        0 <= top_entry(levels) < entries(levels),
        level_of(levels, k) <= level_of(levels, top_entry(levels)),
        k < top_entry(levels) ==> level_of(levels, k) < level_of(levels, top_entry(levels)),
        top_level(levels, entries(levels)) == level_of(levels, top_entry(levels)),
        top_count(levels) == Set::new(
            |i: int|
                0 <= i < entries(levels) && level_of(levels, i) == level_of(
                    levels,
                    top_entry(levels),
                ),
        ).len(),
{
    let n = entries(levels);
    let top = top_level(levels, n);
    lemma_top_is_reached(levels, n);
    let w = choose|w: int| 0 <= w < n && #[trigger] level_of(levels, w) == top;
    lemma_first_at_is(levels, top, 0, w);
    lemma_top_is_top(levels, n, k);
    crate::count::law_a_count_is_a_sets_size(n, at_level(levels, top));
    let p = at_level(levels, top);
    assert(Set::new(|i: int| 0 <= i < n && p(i)) =~= Set::new(
        |i: int|
            0 <= i < entries(levels) && level_of(levels, i) == level_of(
                levels,
                top_entry(levels),
            ),
    ));
}

proof fn lemma_top_is_reached(levels: Seq<u8>, n: int)
    requires
        0 < n <= entries(levels),
    ensures
        exists|w: int| 0 <= w < n && #[trigger] level_of(levels, w) == top_level(levels, n),
    decreases n,
{
    if n == 1 {
        reveal_with_fuel(top_level, 2);
        assert(level_of(levels, 0) == top_level(levels, 1));
    } else {
        lemma_top_is_reached(levels, n - 1);
        let w = choose|w: int|
            0 <= w < n - 1 && #[trigger] level_of(levels, w) == top_level(levels, n - 1);
        if level_of(levels, n - 1) > top_level(levels, n - 1) {
            assert(level_of(levels, n - 1) == top_level(levels, n));
        } else {
            assert(level_of(levels, w) == top_level(levels, n));
        }
    }
}

proof fn lemma_first_at_is(levels: Seq<u8>, level: int, at: int, w: int)
    requires
        0 <= at <= w < entries(levels),
        level_of(levels, w) == level,
    ensures
        at <= first_at(levels, level, at) <= w,
        level_of(levels, first_at(levels, level, at)) == level,
        forall|k: int|
            at <= k < first_at(levels, level, at) ==> #[trigger] level_of(levels, k) != level,
    decreases w - at,
{
    if level_of(levels, at) != level {
        lemma_first_at_is(levels, level, at + 1, w);
    }
}

/// Two files pair exactly where they are of one context, one vocabulary and the
/// same ids over the chunks both hold, and then over those chunks; else the first
/// that differs is named, in that order.
pub proof fn law_files_of_one_text_pair(p: KldView, q: KldView, n: int)
    requires
        p.n_ctx >= 0,
        n == (if p.n_chunk < q.n_chunk { p.n_chunk } else { q.n_chunk }),
        0 <= n,
    ensures
        (paired(p, q) == Ok::<int, PairError>(n)) == (p.n_ctx == q.n_ctx && p.n_vocab == q.n_vocab
            && forall|i: int| 0 <= i < n * p.n_ctx ==> #[trigger] p.ids()[i] == q.ids()[i]),
        paired(p, q) matches Ok(k) ==> k == n,
        p.n_ctx != q.n_ctx ==> paired(p, q) == Err::<int, PairError>(PairError::Ctx),
        p.n_ctx == q.n_ctx && p.n_vocab != q.n_vocab ==> paired(p, q) == Err::<int, PairError>(
            PairError::Vocab,
        ),
        forall|i: int|
            0 <= i < n * p.n_ctx && i <= usize::MAX && p.n_ctx == q.n_ctx && p.n_vocab == q.n_vocab
                && #[trigger] p.ids()[i] != q.ids()[i] && (forall|k: int|
                0 <= k < i ==> #[trigger] p.ids()[k] == q.ids()[k]) ==> paired(p, q) == Err::<
                int,
                PairError,
            >(PairError::Ids(i as usize)),
{
    let m = n * p.n_ctx;
    assert(0 <= m) by (nonlinear_arith)
        requires
            0 <= n,
            0 <= p.n_ctx,
            m == n * p.n_ctx,
    ;
    lemma_first_difference_is_least(p.ids(), q.ids(), m, 0);
}

proof fn lemma_first_difference_is_least(a: Seq<u32>, b: Seq<u32>, n: int, at: int)
    requires
        0 <= at <= n,
    ensures
        match first_difference(a, b, n, at) {
            Some(i) => at <= i < n && a[i] != b[i] && forall|k: int|
                at <= k < i ==> #[trigger] a[k] == b[k],
            None => forall|k: int| at <= k < n ==> #[trigger] a[k] == b[k],
        },
    decreases n - at,
{
    if at < n && a[at] == b[at] {
        lemma_first_difference_is_least(a, b, n, at + 1);
    }
}

/// A run's result line is the last of its log that opens with its tag, and a
/// field of it is what follows the first word that opens with the key and `=`.
pub proof fn law_the_last_result_line_counts(
    before: Seq<Seq<char>>,
    line: Seq<char>,
    tag: Seq<char>,
    words: Seq<Seq<char>>,
    key: Seq<char>,
    value: Seq<char>,
)
    ensures
        last_opening(before.push("ppl tag="@ + tag + " "@ + line), result_head(tag)) == Some(
            "ppl tag="@ + tag + " "@ + line,
        ),
        !text::opens_with(line, "ppl tag="@ + tag + " "@) ==> last_opening(
            before.push(line),
            result_head(tag),
        ) == last_opening(before, result_head(tag)),
        last_opening(Seq::empty(), result_head(tag)) is None,
        field_of(seq![key + "="@ + value] + words, key, 0) == Some(value),
        !text::opens_with(line, key + "="@) ==> field_of(seq![line] + words, key, 0) == field_of(
            words,
            key,
            0,
        ),
{
    let head = "ppl tag="@ + tag + " "@;
    assert((head + line).take(head.len() as int) =~= head);
    assert(before.push(head + line).last() == head + line);
    assert(before.push(line).drop_last() =~= before);
    let w = key + "="@ + value;
    let k = key + "="@;
    assert(w.take(k.len() as int) =~= k);
    assert(w.skip(k.len() as int) =~= value);
    assert((seq![w] + words)[0] == w);
    assert((seq![line] + words)[0] == line);
    lemma_field_shift(seq![line] + words, words, key, 0);
}

proof fn lemma_field_shift(a: Seq<Seq<char>>, b: Seq<Seq<char>>, key: Seq<char>, at: int)
    requires
        0 <= at,
        a.len() == b.len() + 1,
        forall|i: int| 0 <= i < b.len() ==> a[i + 1] == #[trigger] b[i],
    ensures
        field_of(a, key, at + 1) == field_of(b, key, at),
    decreases b.len() - at,
{
    if at < b.len() {
        assert(a[at + 1] == b[at]);
        lemma_field_shift(a, b, key, at + 1);
    }
}

} // verus!
