//! The rules of the comparison of two base files: its arguments, the run a
//! summary must come from, and the bins its profiles are cut into.
use crate::bits::at_most;
use crate::bits::is_at_most;
use crate::count::count_where;
use crate::kld::field_of;
use crate::kld::ResultLine;
use crate::rank;
use crate::text;
use crate::text::decimal;
use crate::text::number;
use vstd::prelude::*;

verus! {

// ------------------------------------------------------------ arguments

/// The comparison's arguments.
#[derive(Clone, Debug)]
pub struct Args {
    pub p: String,
    pub q: String,
    pub ubatch: Vec<u64>,
    pub ik: Option<String>,
}

/// Why arguments are refused.
#[derive(Clone, Copy, Debug, PartialEq, Eq, Structural)]
pub enum ArgError {
    /// The two files are not both named.
    Usage,
    /// The flag at this index takes a value.
    NoValue(usize),
    /// The value of the flag at this index is no positive integer.
    Ubatch(usize),
    /// The flag at this index is unknown.
    Unknown(usize),
}

/// What the flags say: the splits, and the run to be judged against.
pub ghost struct Flags {
    pub ubatch: Seq<nat>,
    pub ik: Option<Seq<char>>,
}

/// What the arguments from `at` on add to the flags.
pub open spec fn flags_from(a: Seq<Seq<char>>, at: int, f: Flags) -> Result<Flags, ArgError>
    decreases a.len() - at,
{
    if at < 0 || at >= a.len() {
        Ok(f)
    } else if at + 1 >= a.len() {
        Err(ArgError::NoValue(at as usize))
    } else if a[at] == "--ubatch"@ {
        match number(a[at + 1], usize::MAX as nat) {
            Some(n) => if n > 0 {
                flags_from(a, at + 2, Flags { ubatch: f.ubatch.push(n), ..f })
            } else {
                Err(ArgError::Ubatch(at as usize))
            },
            None => Err(ArgError::Ubatch(at as usize)),
        }
    } else if a[at] == "--ik"@ {
        flags_from(a, at + 2, Flags { ik: Some(a[at + 1]), ..f })
    } else {
        Err(ArgError::Unknown(at as usize))
    }
}

/// What the arguments say.
pub open spec fn args_of(a: Seq<Seq<char>>) -> Result<Flags, ArgError> {
    if a.len() < 2 {
        Err(ArgError::Usage)
    } else {
        flags_from(a, 2, Flags { ubatch: seq![], ik: None })
    }
}

/// Numbers by their values.
pub open spec fn values(v: Seq<u64>) -> Seq<nat> {
    v.map_values(|x: u64| x as nat)
}

/// A copy of a string.
fn copy(s: &String) -> (r: String)
    ensures
        r@ == s@,
{
    text::string_of(text::chars_of(s.as_str()).as_slice())
}

/// The comparison's arguments, the program's name not among them:
/// `<P.kld> <Q.kld> [--ubatch N]... [--ik TAG]`.
pub fn parse_args(a: &[String]) -> (r: Result<Args, ArgError>)
    ensures
        match r {
            Ok(args) => {
                &&& a@.len() >= 2
                &&& args.p@ == a@[0]@
                &&& args.q@ == a@[1]@
                &&& args_of(text::strings(a@)) == Ok::<Flags, ArgError>(
                    Flags {
                        ubatch: values(args.ubatch@),
                        ik: match args.ik {
                            Some(t) => Some(t@),
                            None => None,
                        },
                    },
                )
            },
            Err(e) => args_of(text::strings(a@)) == Err::<Flags, ArgError>(e),
        },
{
    let ghost all = text::strings(a@);
    let n: usize = a.len();
    if n < 2 {
        return Err(ArgError::Usage);
    }
    let mut ubatch: Vec<u64> = Vec::new();
    let mut ik: Option<String> = None;
    let mut i: usize = 2;
    assert(values(ubatch@) =~= seq![]);
    while i < n
        invariant
            2 <= i,
            n == a@.len(),
            all == text::strings(a@),
            args_of(all) == flags_from(
                all,
                i as int,
                Flags {
                    ubatch: values(ubatch@),
                    ik: match ik {
                        Some(t) => Some(t@),
                        None => None,
                    },
                },
            ),
        decreases n - i,
    {
        if n - i < 2 {
            return Err(ArgError::NoValue(i));
        }
        assert(all[i as int] == a@[i as int]@);
        assert(all[i + 1] == a@[i + 1]@);
        if text::same_str(a[i].as_str(), "--ubatch") {
            match text::parse_number(
                text::chars_of(a[i + 1].as_str()).as_slice(),
                usize::MAX as u64,
            ) {
                Some(v) => {
                    if v == 0 {
                        return Err(ArgError::Ubatch(i));
                    }
                    let ghost held = values(ubatch@);
                    ubatch.push(v);
                    assert(values(ubatch@) =~= held.push(v as nat));
                },
                None => {
                    return Err(ArgError::Ubatch(i));
                },
            }
        } else if text::same_str(a[i].as_str(), "--ik") {
            ik = Some(copy(&a[i + 1]));
        } else {
            return Err(ArgError::Unknown(i));
        }
        if n - i == 2 {
            i = n;
        } else {
            i += 2;
        }
    }
    Ok(Args { p: copy(&a[0]), q: copy(&a[1]), ubatch, ik })
}

// ------------------------------------------------------------ tags

/// A path's component is a name: not empty and not `.`.
pub open spec fn is_name(c: Seq<char>) -> bool {
    c.len() > 0 && c != "."@
}

/// The last of the first `n` components that is a name.
pub open spec fn last_name(parts: Seq<Seq<char>>, n: int) -> Option<Seq<char>>
    decreases n,
{
    if n <= 0 {
        None
    } else if is_name(parts[n - 1]) {
        Some(parts[n - 1])
    } else {
        last_name(parts, n - 1)
    }
}

/// The last point of the first `n` characters.
pub open spec fn last_point(s: Seq<char>, n: int) -> Option<int>
    decreases n,
{
    if n <= 0 {
        None
    } else if s[n - 1] == '.' {
        Some(n - 1)
    } else {
        last_point(s, n - 1)
    }
}

/// A file's name without its extension: up to its last point, unless that
/// opens it.
pub open spec fn stem_of(name: Seq<char>) -> Seq<char> {
    match last_point(name, name.len() as int) {
        Some(i) => if i > 0 {
            name.take(i)
        } else {
            name
        },
        None => name,
    }
}

/// The stem of a path's file, if the path names one.
pub open spec fn path_stem(path: Seq<char>) -> Option<Seq<char>> {
    let parts = text::split(path, '/');
    match last_name(parts, parts.len() as int) {
        None => None,
        Some(name) => if name == ".."@ {
            None
        } else {
            Some(stem_of(name))
        },
    }
}

/// The tag of the run that wrote a file: the stem of its path.
pub fn tag_of(path: &str) -> (r: Option<String>)
    ensures
        match r {
            Some(t) => path_stem(path@) == Some(t@),
            None => path_stem(path@) is None,
        },
{
    let parts: Vec<Vec<char>> = text::split_at_each(text::chars_of(path).as_slice(), '/');
    let ghost all = text::split(path@, '/');
    let mut n: usize = parts.len();
    while n > 0
        invariant
            n <= parts@.len(),
            text::pieces(parts@) == all,
            all == text::split(path@, '/'),
            last_name(all, all.len() as int) == last_name(all, n as int),
        decreases n,
    {
        n -= 1;
        assert(all[n as int] == parts@[n as int]@);
        let name: &Vec<char> = &parts[n];
        if name.len() > 0 && !text::is(name.as_slice(), ".") {
            if text::is(name.as_slice(), "..") {
                return None;
            }
            let mut k: usize = name.len();
            while k > 0 && name[k - 1] != '.'
                invariant
                    k <= name@.len(),
                    last_point(name@, name@.len() as int) == last_point(name@, k as int),
                decreases k,
            {
                k -= 1;
            }
            if k > 1 {
                let stem: Vec<char> = text::piece(name.as_slice(), 0, k - 1);
                assert(stem@ =~= name@.take(k - 1));
                return Some(text::string_of(stem.as_slice()));
            }
            return Some(text::string_of(name.as_slice()));
        }
    }
    None
}

// ------------------------------------------------------------ the run

/// Why a run's summary does not judge a pair of files.
#[derive(Clone, Copy, Debug, PartialEq, Eq, Structural)]
pub enum RunError {
    /// The run's line has not this field, or it is no number.
    Field(RunKey),
    /// The run scored against another file.
    Base,
    /// The run's context or chunks are not the pair's.
    Shape,
    /// The file was written with another value of this field.
    Other(RunKey),
}

/// A field a run is matched by.
#[derive(Clone, Copy, Debug, PartialEq, Eq, Structural)]
pub enum RunKey {
    Base,
    Ctx,
    Chunks,
    Tree,
    Head,
    Model,
    Ubatch,
}

/// The field's name.
pub open spec fn key_text(k: RunKey) -> Seq<char> {
    match k {
        RunKey::Base => "base"@,
        RunKey::Ctx => "ctx"@,
        RunKey::Chunks => "chunks"@,
        RunKey::Tree => "tree"@,
        RunKey::Head => "head"@,
        RunKey::Model => "model"@,
        RunKey::Ubatch => "ubatch"@,
    }
}

/// The field's name.
fn key_name(k: RunKey) -> (r: &'static str)
    ensures
        r@ == key_text(k),
{
    match k {
        RunKey::Base => "base",
        RunKey::Ctx => "ctx",
        RunKey::Chunks => "chunks",
        RunKey::Tree => "tree",
        RunKey::Head => "head",
        RunKey::Model => "model",
        RunKey::Ubatch => "ubatch",
    }
}

/// A field of a result line.
pub open spec fn says(l: ResultLine, k: RunKey) -> Option<Seq<char>> {
    field_of(text::words(l.line@), key_text(k), 0)
}

/// A field of a result line as a number.
pub open spec fn counts(l: ResultLine, k: RunKey) -> Option<nat> {
    match says(l, k) {
        Some(v) => number(v, usize::MAX as nat),
        None => None,
    }
}

/// What is wrong with a field that must agree.
pub open spec fn key_fault(ik: ResultLine, q: ResultLine, k: RunKey) -> Option<RunError> {
    if says(ik, k) is None || says(q, k) is None {
        Some(RunError::Field(k))
    } else if says(ik, k) != says(q, k) {
        Some(RunError::Other(k))
    } else {
        None
    }
}

/// What is wrong with a run as a pair's summary, first things first: `p_tag`
/// the tag of P, `n_ctx` and `n_chunk` the pair's, `p_chunks` P's own.
pub open spec fn run_fault(
    ik: ResultLine,
    q: ResultLine,
    p_tag: Seq<char>,
    n_ctx: u64,
    n_chunk: u64,
    p_chunks: u64,
) -> Option<RunError> {
    if says(ik, RunKey::Base) is None {
        Some(RunError::Field(RunKey::Base))
    } else if says(ik, RunKey::Base)->0 != p_tag {
        Some(RunError::Base)
    } else if counts(ik, RunKey::Ctx) is None {
        Some(RunError::Field(RunKey::Ctx))
    } else if counts(ik, RunKey::Chunks) is None {
        Some(RunError::Field(RunKey::Chunks))
    } else if counts(ik, RunKey::Ctx)->0 != n_ctx || counts(ik, RunKey::Chunks)->0 != n_chunk
        || counts(ik, RunKey::Chunks)->0 != p_chunks {
        Some(RunError::Shape)
    } else if key_fault(ik, q, RunKey::Tree) is Some {
        key_fault(ik, q, RunKey::Tree)
    } else if key_fault(ik, q, RunKey::Head) is Some {
        key_fault(ik, q, RunKey::Head)
    } else if key_fault(ik, q, RunKey::Model) is Some {
        key_fault(ik, q, RunKey::Model)
    } else {
        key_fault(ik, q, RunKey::Ubatch)
    }
}

/// Checks a field that must agree.
fn check_key(ik: &ResultLine, q: &ResultLine, k: RunKey) -> (r: Result<(), RunError>)
    ensures
        match r {
            Ok(_) => key_fault(*ik, *q, k) is None,
            Err(e) => key_fault(*ik, *q, k) == Some(e),
        },
{
    match (ik.text(key_name(k)), q.text(key_name(k))) {
        (Some(a), Some(b)) => if text::same_str(a.as_str(), b.as_str()) {
            Ok(())
        } else {
            Err(RunError::Other(k))
        },
        _ => Err(RunError::Field(k)),
    }
}

/// A field as a number.
fn count_field(l: &ResultLine, k: RunKey) -> (r: Result<u64, RunError>)
    ensures
        match r {
            Ok(n) => counts(*l, k) == Some(n as nat),
            Err(e) => counts(*l, k) is None && e == RunError::Field(k),
        },
{
    match l.parse(key_name(k), usize::MAX as u64) {
        Ok(n) => Ok(n),
        Err(_) => Err(RunError::Field(k)),
    }
}

/// Whether the run `ik` may judge a pair of files: it read P as its base, over
/// the pair's context and chunks, and ran the tree, model and ubatch of the run
/// `q` that wrote Q.
pub fn check_run(
    ik: &ResultLine,
    q: &ResultLine,
    p_tag: &str,
    n_ctx: u64,
    n_chunk: u64,
    p_chunks: u64,
) -> (r: Result<(), RunError>)
    ensures
        match r {
            Ok(_) => run_fault(*ik, *q, p_tag@, n_ctx, n_chunk, p_chunks) is None,
            Err(e) => run_fault(*ik, *q, p_tag@, n_ctx, n_chunk, p_chunks) == Some(e),
        },
{
    match ik.text("base") {
        None => {
            return Err(RunError::Field(RunKey::Base));
        },
        Some(base) => {
            if !text::same_str(base.as_str(), p_tag) {
                return Err(RunError::Base);
            }
        },
    }
    let ctx: u64 = count_field(ik, RunKey::Ctx)?;
    let chunks: u64 = count_field(ik, RunKey::Chunks)?;
    if ctx != n_ctx || chunks != n_chunk || chunks != p_chunks {
        return Err(RunError::Shape);
    }
    check_key(ik, q, RunKey::Tree)?;
    check_key(ik, q, RunKey::Head)?;
    check_key(ik, q, RunKey::Model)?;
    check_key(ik, q, RunKey::Ubatch)
}

// ------------------------------------------------------------ bins

/// A bin: the values from `low` to `high`, both inclusive.
#[derive(Clone, Copy, Debug, PartialEq, Eq, Structural)]
pub struct Bin {
    pub low: usize,
    pub high: usize,
}

impl Bin {
    /// The bin holds a value.
    pub open spec fn has(self, x: usize) -> bool {
        self.low <= x <= self.high
    }

    /// Whether the bin holds a value.
    pub fn holds(&self, x: usize) -> (r: bool)
        ensures
            r == self.has(x),
    {
        self.low <= x && x <= self.high
    }

    /// The bin as a profile prints it.
    pub open spec fn text(self) -> Seq<char> {
        if self.high == usize::MAX {
            decimal(self.low as nat) + seq!['+']
        } else if self.low == self.high {
            decimal(self.low as nat)
        } else {
            decimal(self.low as nat) + seq!['-'] + decimal(self.high as nat)
        }
    }

    /// The bin as a profile prints it.
    pub fn label(&self) -> (r: String)
        ensures
            r@ == self.text(),
    {
        let mut out: Vec<char> = Vec::new();
        text::push_decimal(&mut out, self.low as u64);
        if self.high == usize::MAX {
            out.push('+');
        } else if self.low != self.high {
            out.push('-');
            text::push_decimal(&mut out, self.high as u64);
        }
        assert(out@ =~= self.text());
        text::string_of(out.as_slice())
    }
}

/// The distance bins, in positions after the last boundary of a split.
pub open spec fn distances() -> Seq<Bin> {
    seq![
        Bin { low: 0, high: 0 },
        Bin { low: 1, high: 1 },
        Bin { low: 2, high: 2 },
        Bin { low: 3, high: 3 },
        Bin { low: 4, high: 7 },
        Bin { low: 8, high: 127 },
        Bin { low: 128, high: usize::MAX },
    ]
}

/// The distance bins, in positions after the last boundary of a split.
pub fn distance_bins() -> (r: Vec<Bin>)
    ensures
        r@ == distances(),
{
    let r: Vec<Bin> = vec![
        Bin { low: 0, high: 0 },
        Bin { low: 1, high: 1 },
        Bin { low: 2, high: 2 },
        Bin { low: 3, high: 3 },
        Bin { low: 4, high: 7 },
        Bin { low: 8, high: 127 },
        Bin { low: 128, high: usize::MAX },
    ];
    assert(r@ =~= distances());
    r
}

/// Every distance lies in one of the bins and in no other.
pub proof fn law_a_distance_has_one_bin(x: usize)
    ensures
        exists|i: int| 0 <= i < 7 && #[trigger] distances()[i].has(x),
        forall|i: int, j: int|
            0 <= i < 7 && 0 <= j < 7 && #[trigger] distances()[i].has(x)
                && #[trigger] distances()[j].has(x) ==> i == j,
{
    let at: int = if x <= 3 {
        x as int
    } else if x <= 7 {
        4
    } else if x <= 127 {
        5
    } else {
        6
    };
    assert(distances()[at].has(x));
}

/// Positions per bin of the by-position profile.
pub const POSITION_BIN: usize = 64;

/// Bin `b` of the by-position profile.
pub open spec fn position_bin(b: int) -> Bin {
    Bin { low: (64 * b) as usize, high: (64 * b + 63) as usize }
}

/// The lowest and the highest bin of the first `n` positions.
pub open spec fn bin_span(pos: Seq<usize>, n: int) -> (int, int)
    decreases n,
{
    if n <= 1 {
        (pos[0] as int / 64, pos[0] as int / 64)
    } else {
        let before = bin_span(pos, n - 1);
        let b = pos[n - 1] as int / 64;
        (
            if b < before.0 {
                b
            } else {
                before.0
            },
            if b > before.1 {
                b
            } else {
                before.1
            },
        )
    }
}

/// The bins of the by-position profile: from the lowest to the highest that
/// holds a position, none of no position.
pub fn position_bins(pos: &[usize]) -> (r: Vec<Bin>)
    ensures
        if pos@.len() == 0 {
            r@.len() == 0
        } else {
            let span = bin_span(pos@, pos@.len() as int);
            &&& r@.len() == span.1 - span.0 + 1
            &&& forall|k: int| 0 <= k < r@.len() ==> #[trigger] r@[k] == position_bin(span.0 + k)
        },
{
    let mut out: Vec<Bin> = Vec::new();
    if pos.len() == 0 {
        return out;
    }
    let mut first: usize = pos[0] / POSITION_BIN;
    let mut last: usize = first;
    let mut i: usize = 1;
    while i < pos.len()
        invariant
            1 <= i <= pos@.len(),
            (first as int, last as int) == bin_span(pos@, i as int),
            first <= last <= usize::MAX / 64,
        decreases pos@.len() - i,
    {
        let b: usize = pos[i] / POSITION_BIN;
        if b < first {
            first = b;
        }
        if b > last {
            last = b;
        }
        i += 1;
    }
    let mut b: usize = first;
    while b <= last
        invariant
            first <= last <= usize::MAX / 64,
            first <= b <= last + 1,
            out@.len() == b - first,
            forall|k: int| 0 <= k < out@.len() ==> #[trigger] out@[k] == position_bin(first + k),
        decreases last + 1 - b,
    {
        proof {
            lemma_last_bin();
        }
        out.push(Bin { low: POSITION_BIN * b, high: POSITION_BIN * b + 63 });
        b += 1;
    }
    out
}

/// Every position lies in the bin of its number.
pub proof fn law_a_position_lies_in_its_bin(x: usize)
    ensures
        position_bin(x as int / 64).has(x),
{
    lemma_last_bin();
}

/// The last bin is whole.
proof fn lemma_last_bin()
    ensures
        usize::MAX % 64 == 63,
{
    assert(usize::MAX == 0xffff_ffff || usize::MAX == 0xffff_ffff_ffff_ffff);
}

/// Positions listed as the worst.
pub const WORST: usize = 20;

/// A double's place in the total order of doubles, by its bits.
pub open spec fn total_key64(b: u64) -> int {
    if b < 0x8000_0000_0000_0000 {
        b as int
    } else {
        0x7fff_ffff_ffff_ffff - b
    }
}

/// The places of doubles in the total order.
pub open spec fn total_keys64(v: Seq<u64>) -> Seq<i64> {
    v.map_values(|b: u64| total_key64(b) as i64)
}

/// The positions of the largest divergences, doubles by their bits: the largest
/// first, the earlier of two as large first, [`WORST`] at most.
pub fn worst(kld: &[u64]) -> (r: Vec<usize>)
    ensures
        rank::is_top(
            r@,
            total_keys64(kld@),
            if kld@.len() < WORST {
                kld@.len() as int
            } else {
                WORST as int
            },
        ),
{
    let mut keys: Vec<i64> = Vec::new();
    let mut i: usize = 0;
    while i < kld.len()
        invariant
            i <= kld@.len(),
            keys@ =~= total_keys64(kld@).take(i as int),
        decreases kld@.len() - i,
    {
        let key: i64 = if kld[i] < 0x8000_0000_0000_0000 {
            kld[i] as i64
        } else {
            let low: u64 = kld[i] - 0x8000_0000_0000_0000;
            -(low as i64) - 1
        };
        keys.push(key);
        i += 1;
    }
    assert(total_keys64(kld@).take(kld@.len() as int) =~= total_keys64(kld@));
    let k: usize = if keys.len() < WORST {
        keys.len()
    } else {
        WORST
    };
    rank::top(keys.as_slice(), k)
}

// ------------------------------------------------------------ against a summary

/// A double's magnitude.
pub open spec fn magnitude(x: u64) -> u64 {
    (x % 0x8000_0000_0000_0000) as u64
}

/// Whether a value of the pair holds against the summary's: `delta` the pair's
/// minus the summary's and `band` how far they may lie apart, doubles by their
/// bits. One-sided, only an excess of the pair's value fails.
pub fn delta_held(delta: u64, one_sided: bool, band: u64) -> (r: bool)
    ensures
        r == at_most(
            if one_sided {
                delta
            } else {
                magnitude(delta)
            },
            band,
        ),
{
    if one_sided {
        is_at_most(delta, band)
    } else {
        is_at_most(delta % 0x8000_0000_0000_0000, band)
    }
}

/// What decides how a pair is held against a summary, over its positions.
#[derive(Clone, Copy, Debug, PartialEq, Eq, Structural)]
pub struct PosCounts {
    /// Entries of Q at its top level.
    pub q_top_count: u32,
    /// Q's next token is at its floor.
    pub q_next_at_floor: bool,
    /// Entries in the cut that sit at Q's floor.
    pub cut_at_q_floor: u32,
}

/// What the positions of a pair add up to.
#[derive(Clone, Copy, Debug, PartialEq, Eq, Structural)]
pub struct PairCounts {
    /// Positions with a tie at Q's top level.
    pub ties: usize,
    /// Positions whose next token is at Q's floor.
    pub floor: usize,
    /// Entries in the cut that sit at Q's floor.
    pub cut_floor: u64,
}

/// The positions with a tie at Q's top level.
pub open spec fn tied(v: Seq<PosCounts>) -> spec_fn(int) -> bool {
    |i: int| v[i].q_top_count > 1
}

/// The positions whose next token is at Q's floor.
pub open spec fn floored(v: Seq<PosCounts>) -> spec_fn(int) -> bool {
    |i: int| v[i].q_next_at_floor
}

/// The entries of the first `n` positions in the cut that sit at Q's floor.
pub open spec fn cut_sum(v: Seq<PosCounts>, n: int) -> nat
    decreases n,
{
    if n <= 0 {
        0
    } else {
        cut_sum(v, n - 1) + v[n - 1].cut_at_q_floor as nat
    }
}

/// The sum over more positions is no smaller.
proof fn lemma_cut_grows(v: Seq<PosCounts>, m: int, n: int)
    requires
        m <= n,
    ensures
        cut_sum(v, m) <= cut_sum(v, n),
    decreases n - m,
{
    if m < n {
        lemma_cut_grows(v, m, n - 1);
    }
}

/// What the positions of a pair add up to: a same-top count may move by the
/// ties, and a mean is held one-sided where an entry sits at Q's floor.
pub fn pair_counts(v: &[PosCounts]) -> (r: PairCounts)
    requires
        cut_sum(v@, v@.len() as int) <= u64::MAX,
    ensures
        r.ties == count_where(v@.len() as int, tied(v@)),
        r.floor == count_where(v@.len() as int, floored(v@)),
        r.cut_floor == cut_sum(v@, v@.len() as int),
{
    let mut ties: usize = 0;
    let mut floor: usize = 0;
    let mut cut_floor: u64 = 0;
    let mut i: usize = 0;
    while i < v.len()
        invariant
            i <= v@.len(),
            cut_sum(v@, v@.len() as int) <= u64::MAX,
            ties <= i,
            floor <= i,
            ties == count_where(i as int, tied(v@)),
            floor == count_where(i as int, floored(v@)),
            cut_floor == cut_sum(v@, i as int),
        decreases v@.len() - i,
    {
        if v[i].q_top_count > 1 {
            ties += 1;
        }
        if v[i].q_next_at_floor {
            floor += 1;
        }
        proof {
            lemma_cut_grows(v@, i + 1, v@.len() as int);
        }
        cut_floor += v[i].cut_at_q_floor as u64;
        i += 1;
    }
    PairCounts { ties, floor, cut_floor }
}

// ------------------------------------------------------------ what the arguments say

/// The flags are read pair by pair: a `--ubatch` with a number above zero behind it
/// adds that number, a `--ik` names the run compared with, the later one counting;
/// a number of zero, another flag and a flag without its value are refused.
pub proof fn law_flags_are_read_in_pairs(a: Seq<Seq<char>>, f: Flags, n: usize, v: Seq<char>)
    requires
        a.len() <= usize::MAX,
        args_of(a) == Ok::<Flags, ArgError>(f),
    ensures
        n > 0 ==> args_of(a.push("--ubatch"@).push(decimal(n as nat))) == Ok::<Flags, ArgError>(
            Flags { ubatch: f.ubatch.push(n as nat), ik: f.ik },
        ),
        args_of(a.push("--ubatch"@).push(decimal(0))) == Err::<Flags, ArgError>(
            ArgError::Ubatch(a.len() as usize),
        ),
        args_of(a.push("--ik"@).push(v)) == Ok::<Flags, ArgError>(
            Flags { ubatch: f.ubatch, ik: Some(v) },
        ),
        args_of(a.push(v)) == Err::<Flags, ArgError>(ArgError::NoValue(a.len() as usize)),
        v != "--ubatch"@ && v != "--ik"@ ==> args_of(a.push(v).push("1"@)) == Err::<
            Flags,
            ArgError,
        >(ArgError::Unknown(a.len() as usize)),
        args_of(seq![v, v]) == Ok::<Flags, ArgError>(Flags { ubatch: seq![], ik: None }),
        args_of(seq![v]) == Err::<Flags, ArgError>(ArgError::Usage),
{
    let start = Flags { ubatch: seq![], ik: None };
    let none = Flags { ubatch: Seq::<nat>::empty(), ik: None };
    assert(start == none);
    text::law_number_reads_decimal(n as nat, usize::MAX as nat);
    text::law_number_reads_decimal(0, usize::MAX as nat);
    reveal_strlit("--ubatch");
    reveal_strlit("--ik");
    assert("--ubatch"@.len() != "--ik"@.len());
    lemma_flags_go_on(a, seq!["--ubatch"@, decimal(n as nat)], 2, none);
    lemma_flags_go_on(a, seq!["--ubatch"@, decimal(0)], 2, none);
    lemma_flags_go_on(a, seq!["--ik"@, v], 2, none);
    lemma_flags_go_on(a, seq![v], 2, none);
    lemma_flags_go_on(a, seq![v, "1"@], 2, none);
    assert(a + seq!["--ubatch"@, decimal(n as nat)] =~= a.push("--ubatch"@).push(decimal(n as nat)));
    assert(a + seq!["--ubatch"@, decimal(0)] =~= a.push("--ubatch"@).push(decimal(0)));
    assert(a + seq!["--ik"@, v] =~= a.push("--ik"@).push(v));
    assert(a + seq![v] =~= a.push(v));
    assert(a + seq![v, "1"@] =~= a.push(v).push("1"@));
    reveal_with_fuel(flags_from, 3);
}

/// Flags that read whole are followed by those behind them.
proof fn lemma_flags_go_on(a: Seq<Seq<char>>, b: Seq<Seq<char>>, at: int, f: Flags)
    requires
        0 <= at,
        flags_from(a, at, f) is Ok,
        at <= a.len(),
    ensures
        flags_from(a + b, at, f) == flags_from(a + b, a.len() as int, flags_from(a, at, f)->Ok_0),
    decreases a.len() - at,
{
    if at < a.len() {
        let s = a + b;
        assert(s[at] == a[at]);
        if at + 1 < a.len() {
            assert(s[at + 1] == a[at + 1]);
            if a[at] == "--ubatch"@ {
                if let Some(n) = number(a[at + 1], usize::MAX as nat) {
                    if n > 0 {
                        lemma_flags_go_on(a, b, at + 2, Flags { ubatch: f.ubatch.push(n), ..f });
                    }
                }
            } else if a[at] == "--ik"@ {
                lemma_flags_go_on(a, b, at + 2, Flags { ik: Some(a[at + 1]), ..f });
            }
        }
    }
}

/// A run's tag is its file's name without the directory and the last extension; a
/// name that only opens with a point keeps it.
pub proof fn law_a_tag_is_the_files_stem(dir: Seq<char>, stem: Seq<char>, ext: Seq<char>)
    requires
        stem.len() > 0,
        !stem.contains('/'),
        !ext.contains('/'),
        !ext.contains('.'),
    ensures
        stem + seq!['.'] + ext != ".."@ ==> path_stem(dir + seq!['/'] + (stem + seq!['.'] + ext))
            == Some(stem),
        ext.len() > 0 ==> path_stem(dir + seq!['/'] + ext) == Some(ext),
        ext.len() > 0 ==> path_stem(dir + seq!['/'] + (seq!['.'] + ext)) == Some(seq!['.'] + ext),
        path_stem(dir + seq!['/'] + ".."@) is None,
{
    reveal_strlit(".");
    reveal_strlit("..");
    let name = stem + seq!['.'] + ext;
    assert(!name.contains('/')) by {
        assert forall|i: int| 0 <= i < name.len() implies name[i] != '/' by {
            if i < stem.len() {
                assert(stem[i] != '/');
            } else if i > stem.len() {
                assert(ext[i - stem.len() - 1] != '/');
            }
        }
    }
    lemma_last_part(dir, name);
    lemma_last_point(name, stem.len() as int, name.len() as int);
    assert(name.take(stem.len() as int) =~= stem);
    assert(is_name(name));
    if ext.len() > 0 {
        lemma_last_part(dir, ext);
        assert forall|i: int| 0 <= i < ext.len() implies ext[i] != '.' by {}
        lemma_no_point(ext, ext.len() as int);
        assert("."@[0] == '.');
        assert(".."@[0] == '.');
        assert(ext[0] != '.');
        let hidden = seq!['.'] + ext;
        assert(!hidden.contains('/')) by {
            assert forall|i: int| 0 <= i < hidden.len() implies hidden[i] != '/' by {
                if i > 0 {
                    assert(ext[i - 1] != '/');
                }
            }
        }
        lemma_last_part(dir, hidden);
        assert(hidden[1] == ext[0]);
        assert(".."@[1] == '.');
        assert(hidden != ".."@);
        lemma_last_point(hidden, 0, hidden.len() as int);
    }
    assert(!".."@.contains('/'));
    lemma_last_part(dir, ".."@);
}

proof fn lemma_last_part(dir: Seq<char>, name: Seq<char>)
    requires
        !name.contains('/'),
        is_name(name),
    ensures
        ({
            let parts = text::split(dir + seq!['/'] + name, '/');
            last_name(parts, parts.len() as int) == Some(name)
        }),
{
    text::law_a_separator_cuts(dir, '/', name);
    text::law_a_separator_cuts(name, '/', name);
    let parts = text::split(dir + seq!['/'] + name, '/');
    assert(text::split(name, '/') == seq![name]);
    assert(parts[parts.len() - 1] == name);
}

proof fn lemma_no_point(s: Seq<char>, n: int)
    requires
        0 <= n <= s.len(),
        forall|i: int| 0 <= i < n ==> s[i] != '.',
    ensures
        last_point(s, n) is None,
    decreases n,
{
    if n > 0 {
        lemma_no_point(s, n - 1);
    }
}

proof fn lemma_last_point(s: Seq<char>, i: int, n: int)
    requires
        0 <= i < n <= s.len(),
        s[i] == '.',
        forall|k: int| i < k < n ==> s[k] != '.',
    ensures
        last_point(s, n) == Some(i),
    decreases n,
{
    if i < n - 1 {
        lemma_last_point(s, i, n - 1);
    }
}

/// A run is accepted exactly where its line names the base it was scored on and
/// the base's context and chunks, and gives the tree, head, model and ubatch that
/// the other run's line gives.
pub proof fn law_a_run_is_accepted_for_one_base(
    ik: ResultLine,
    q: ResultLine,
    p_tag: Seq<char>,
    n_ctx: u64,
    n_chunk: u64,
    p_chunks: u64,
)
    requires
        n_ctx <= usize::MAX,
        n_chunk <= usize::MAX,
    ensures
        run_fault(ik, q, p_tag, n_ctx, n_chunk, p_chunks) is None ==> {
            let (a, b) = (text::words(ik.line@), text::words(q.line@));
            &&& field_of(a, "base"@, 0) == Some(p_tag)
            &&& field_of(a, "ctx"@, 0) matches Some(t) && number(t, usize::MAX as nat) == Some(
                n_ctx as nat,
            )
            &&& field_of(a, "chunks"@, 0) matches Some(t) && number(t, usize::MAX as nat) == Some(
                n_chunk as nat,
            )
            &&& n_chunk == p_chunks
            &&& field_of(a, "tree"@, 0) is Some && field_of(a, "tree"@, 0) == field_of(b, "tree"@, 0)
            &&& field_of(a, "head"@, 0) is Some && field_of(a, "head"@, 0) == field_of(b, "head"@, 0)
            &&& field_of(a, "model"@, 0) is Some && field_of(a, "model"@, 0) == field_of(
                b,
                "model"@,
                0,
            )
            &&& field_of(a, "ubatch"@, 0) is Some && field_of(a, "ubatch"@, 0) == field_of(
                b,
                "ubatch"@,
                0,
            )
        },
        ({
            let (a, b) = (text::words(ik.line@), text::words(q.line@));
            &&& field_of(a, "base"@, 0) == Some(p_tag)
            &&& field_of(a, "ctx"@, 0) == Some(decimal(n_ctx as nat))
            &&& field_of(a, "chunks"@, 0) == Some(decimal(n_chunk as nat))
            &&& n_chunk == p_chunks
            &&& field_of(a, "tree"@, 0) is Some && field_of(a, "tree"@, 0) == field_of(b, "tree"@, 0)
            &&& field_of(a, "head"@, 0) is Some && field_of(a, "head"@, 0) == field_of(b, "head"@, 0)
            &&& field_of(a, "model"@, 0) is Some && field_of(a, "model"@, 0) == field_of(
                b,
                "model"@,
                0,
            )
            &&& field_of(a, "ubatch"@, 0) is Some && field_of(a, "ubatch"@, 0) == field_of(
                b,
                "ubatch"@,
                0,
            )
        }) ==> run_fault(ik, q, p_tag, n_ctx, n_chunk, p_chunks) is None,
{
    text::law_number_reads_decimal(n_ctx as nat, usize::MAX as nat);
    text::law_number_reads_decimal(n_chunk as nat, usize::MAX as nat);
}

// ------------------------------------------------------------ what the bins hold

/// The distance bins: one each for 0 to 3, then 4 to 7, 8 to 127 and all above.
pub proof fn law_the_distance_bins(x: usize)
    ensures
        distances().len() == 7,
        forall|i: int| 0 <= i < 4 ==> (#[trigger] distances()[i].has(x)) == (x == i),
        distances()[4].has(x) == (4 <= x < 8),
        distances()[5].has(x) == (8 <= x < 128),
        distances()[6].has(x) == (128 <= x),
{
}

/// The position bins cover every position, the first and the last of them holding
/// one: so a position lies in the bin as many bins on as it is whole bins above
/// the first.
pub proof fn law_position_bins_span_the_positions(pos: Seq<usize>, n: int, i: int)
    requires
        0 <= i < n <= pos.len(),
    ensures
        bin_span(pos, n).0 <= pos[i] as int / 64 <= bin_span(pos, n).1,
        exists|k: int| 0 <= k < n && #[trigger] pos[k] as int / 64 == bin_span(pos, n).0,
        exists|k: int| 0 <= k < n && #[trigger] pos[k] as int / 64 == bin_span(pos, n).1,
    decreases n,
{
    if n == 1 {
        assert(pos[0] as int / 64 == bin_span(pos, 1).0);
    } else {
        law_position_bins_span_the_positions(
            pos,
            n - 1,
            if i < n - 1 {
                i
            } else {
                0
            },
        );
        let (lo, hi) = bin_span(pos, n - 1);
        let a = choose|k: int| 0 <= k < n - 1 && #[trigger] pos[k] as int / 64 == lo;
        let b = choose|k: int| 0 <= k < n - 1 && #[trigger] pos[k] as int / 64 == hi;
        let c = pos[n - 1] as int / 64;
        assert(pos[a] as int / 64 == lo && pos[b] as int / 64 == hi);
        if c < lo {
            assert(pos[n - 1] as int / 64 == bin_span(pos, n).0);
        } else {
            assert(pos[a] as int / 64 == bin_span(pos, n).0);
        }
        if c > hi {
            assert(pos[n - 1] as int / 64 == bin_span(pos, n).1);
        } else {
            assert(pos[b] as int / 64 == bin_span(pos, n).1);
        }
    }
}

/// A position bin holds the 64 positions from a multiple of 64 on, and its label
/// is its first and its last.
pub proof fn law_a_position_bin_is_64_wide(b: int, x: usize)
    requires
        0 <= b,
        64 * b + 63 < usize::MAX,
    ensures
        position_bin(b).has(x) == (x / 64 == b),
        position_bin(b).text() == decimal((64 * b) as nat) + seq!['-'] + decimal(
            (64 * b + 63) as nat,
        ),
{
}

/// The worst positions are taken in the total order of doubles: a NaN first, then
/// the larger distance.
pub proof fn law_worst_is_by_value(a: u64, b: u64)
    requires
        a < 0x8000_0000_0000_0000,
        b < 0x8000_0000_0000_0000,
    ensures
        (total_key64(a) < total_key64(b)) == (a < b),
        total_key64((b + 0x8000_0000_0000_0000) as u64) < total_key64(a),
        (total_key64((a + 0x8000_0000_0000_0000) as u64) < total_key64(
            (b + 0x8000_0000_0000_0000) as u64,
        )) == (b < a),
        -0x8000_0000_0000_0000 <= total_key64(a) <= 0x7fff_ffff_ffff_ffff,
{
}

/// A position is tied where its top is shared, and at the floor where its next is;
/// what is cut adds up over the positions.
pub proof fn law_a_positions_counts_add_up(v: Seq<PosCounts>, x: PosCounts)
    ensures
        ({
            let n = v.len() as int;
            let w = v.push(x);
            &&& count_where(n + 1, tied(w)) == count_where(n, tied(v)) + (if x.q_top_count >= 2 {
                1nat
            } else {
                0
            })
            &&& count_where(n + 1, floored(w)) == count_where(n, floored(v)) + (if x.q_next_at_floor {
                1nat
            } else {
                0
            })
            &&& cut_sum(w, n + 1) == cut_sum(v, n) + x.cut_at_q_floor
        }),
        count_where(0, tied(seq![])) == 0,
        cut_sum(seq![], 0) == 0,
{
    lemma_counts_of_prefix(v, x, v.len() as int);
}

proof fn lemma_counts_of_prefix(v: Seq<PosCounts>, x: PosCounts, n: int)
    requires
        0 <= n <= v.len(),
    ensures
        count_where(n, tied(v.push(x))) == count_where(n, tied(v)),
        count_where(n, floored(v.push(x))) == count_where(n, floored(v)),
        cut_sum(v.push(x), n) == cut_sum(v, n),
    decreases n,
{
    if n > 0 {
        lemma_counts_of_prefix(v, x, n - 1);
        assert(v.push(x)[n - 1] == v[n - 1]);
    }
}

/// A bin's label gives its ends: the one number where they are the same, the lower
/// and a plus where it is open, and else both.
pub proof fn law_a_bins_label_gives_its_ends(b: Bin)
    ensures
        b.low == b.high && b.high != usize::MAX ==> number(b.text(), usize::MAX as nat) == Some(
            b.low as nat,
        ),
        b.high == usize::MAX ==> b.text().last() == '+' && number(
            b.text().drop_last(),
            usize::MAX as nat,
        ) == Some(b.low as nat),
        b.low != b.high && b.high != usize::MAX ==> text::split(b.text(), '-') == seq![
            decimal(b.low as nat),
            decimal(b.high as nat),
        ],
{
    let (l, h) = (decimal(b.low as nat), decimal(b.high as nat));
    text::law_number_reads_decimal(b.low as nat, usize::MAX as nat);
    text::lemma_decimal_value(b.low as nat);
    text::lemma_decimal_value(b.high as nat);
    assert((l + seq!['+']).drop_last() =~= l);
    assert(!l.contains('-')) by {
        assert forall|i: int| 0 <= i < l.len() implies l[i] != '-' by {
            assert(text::is_digit(l[i]));
        }
    }
    assert(!h.contains('-')) by {
        assert forall|i: int| 0 <= i < h.len() implies h[i] != '-' by {
            assert(text::is_digit(h[i]));
        }
    }
    text::law_a_separator_cuts(l, '-', h);
    text::law_a_separator_cuts(h, '-', seq![]);
    assert(seq![l] + seq![h] =~= seq![l, h]);
}

} // verus!
