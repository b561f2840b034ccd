//! The copy probes' arguments, and what they read of a process's memory.
use crate::text;
use crate::text::ends_with;
use crate::text::number;
use crate::text::opens_with;
use crate::text::trimmed;
use vstd::prelude::*;

verus! {

/// The page size: a registered range starts on a page and spans whole pages.
pub const PAGE: u64 = 4096;

/// Bytes a probe copies unless it is told otherwise: 1 GiB.
pub const BYTES: u64 = 1073741824;

/// Timed copies unless a probe is told otherwise.
pub const REPS: u64 = 8;

/// The fewest timed copies a path of the host-to-device probe may take.
pub const MIN_REPS: u64 = 5;

// ------------------------------------------------------------ sizes

/// Why a text is no size.
#[derive(Clone, Copy, Debug, PartialEq, Eq, Structural)]
pub enum SizeError {
    /// It is no number.
    Number,
    /// It overflows 64 bits.
    Overflow,
}

/// The unit a size's last character names.
pub open spec fn unit_of(c: char) -> Option<nat> {
    if c == 'K' || c == 'k' {
        Some(1024)
    } else if c == 'M' || c == 'm' {
        Some(1048576)
    } else if c == 'G' || c == 'g' {
        Some(1073741824)
    } else {
        None
    }
}

/// The number and the unit of a size.
pub open spec fn size_parts(v: Seq<char>) -> (Seq<char>, nat) {
    if v.len() > 0 && unit_of(v.last()) is Some {
        (v.drop_last(), unit_of(v.last())->0)
    } else {
        (v, 1)
    }
}

/// What a size says in bytes.
pub open spec fn size_of(v: Seq<char>) -> Result<nat, SizeError> {
    let p = size_parts(v);
    match number(p.0, u64::MAX as nat) {
        None => Err(SizeError::Number),
        Some(n) => if n * p.1 <= u64::MAX {
            Ok(n * p.1)
        } else {
            Err(SizeError::Overflow)
        },
    }
}

/// `N`, `NK`, `NM` or `NG` (binary units) as bytes.
pub fn size(v: &str) -> (r: Result<u64, SizeError>)
    ensures
        match r {
            Ok(n) => size_of(v@) == Ok::<nat, SizeError>(n as nat),
            Err(e) => size_of(v@) == Err::<nat, SizeError>(e),
        },
{
    let cs: Vec<char> = text::chars_of(v);
    let n: usize = cs.len();
    let mut unit: u64 = 1;
    let mut end: usize = n;
    if n > 0 {
        let c: char = cs[n - 1];
        if c == 'K' || c == 'k' {
            unit = 1024;
            end = n - 1;
        } else if c == 'M' || c == 'm' {
            unit = 1048576;
            end = n - 1;
        } else if c == 'G' || c == 'g' {
            unit = 1073741824;
            end = n - 1;
        }
    }
    let num: Vec<char> = text::piece(cs.as_slice(), 0, end);
    assert(num@ =~= size_parts(v@).0);
    match text::parse_number(num.as_slice(), u64::MAX) {
        None => Err(SizeError::Number),
        Some(n) => match n.checked_mul(unit) {
            Some(b) => Ok(b),
            None => Err(SizeError::Overflow),
        },
    }
}

// ------------------------------------------------------------ arguments

/// A probe's arguments.
#[derive(Clone, Copy, Debug, PartialEq, Eq, Structural)]
pub struct ProbeArgs {
    pub bytes: u64,
    pub reps: u64,
    pub offset: u64,
}

/// Which probe reads the arguments.
#[derive(Clone, Copy, Debug, PartialEq, Eq, Structural)]
pub enum Probe {
    /// The host-register probe: sizes with units, and an offset.
    Register,
    /// The host-to-device probe: plain numbers.
    HostToDevice,
}

/// Why a probe's arguments are refused.
#[derive(Clone, Copy, Debug, PartialEq, Eq, Structural)]
pub enum ProbeError {
    /// The flag at this index takes a value.
    NoValue(usize),
    /// The value of the flag at this index does not parse.
    Value(usize),
    /// The flag at this index is unknown.
    Unknown(usize),
    /// The bytes or the offset are not whole pages, or the bytes or the copies
    /// are too few.
    Range,
}

/// What a value says in bytes to a probe.
pub open spec fn bytes_in(p: Probe, v: Seq<char>) -> Option<nat> {
    match p {
        Probe::Register => match size_of(v) {
            Ok(n) => Some(n),
            Err(_) => None,
        },
        Probe::HostToDevice => number(v, u64::MAX as nat),
    }
}

/// What the arguments from `at` on make of those so far.
pub open spec fn probe_from(p: Probe, a: Seq<Seq<char>>, at: int, v: ProbeArgs) -> Result<
    ProbeArgs,
    ProbeError,
>
    decreases a.len() - at,
{
    if at < 0 || at >= a.len() {
        Ok(v)
    } else if a[at] == "--bytes"@ {
        if at + 1 >= a.len() {
            Err(ProbeError::NoValue(at as usize))
        } else {
            match bytes_in(p, a[at + 1]) {
                Some(n) => probe_from(p, a, at + 2, ProbeArgs { bytes: n as u64, ..v }),
                None => Err(ProbeError::Value(at as usize)),
            }
        }
    } else if a[at] == "--reps"@ {
        if at + 1 >= a.len() {
            Err(ProbeError::NoValue(at as usize))
        } else {
            match number(a[at + 1], u64::MAX as nat) {
                Some(n) => probe_from(p, a, at + 2, ProbeArgs { reps: n as u64, ..v }),
                None => Err(ProbeError::Value(at as usize)),
            }
        }
    } else if a[at] == "--offset"@ && p == Probe::Register {
        if at + 1 >= a.len() {
            Err(ProbeError::NoValue(at as usize))
        } else {
            match size_of(a[at + 1]) {
                Ok(n) => probe_from(p, a, at + 2, ProbeArgs { offset: n as u64, ..v }),
                Err(_) => Err(ProbeError::Value(at as usize)),
            }
        }
    } else {
        Err(ProbeError::Unknown(at as usize))
    }
}

/// The arguments are a probe's: whole pages, and copies enough.
pub open spec fn in_range(p: Probe, v: ProbeArgs) -> bool {
    &&& v.bytes > 0
    &&& v.bytes % 4096 == 0
    &&& v.offset % 4096 == 0
    &&& match p {
        Probe::Register => v.reps > 0,
        Probe::HostToDevice => v.reps >= MIN_REPS,
    }
}

/// What a probe's arguments say.
pub open spec fn probe_of(p: Probe, a: Seq<Seq<char>>) -> Result<ProbeArgs, ProbeError> {
    match probe_from(p, a, 0, ProbeArgs { bytes: BYTES, reps: REPS, offset: 0 }) {
        Err(e) => Err(e),
        Ok(v) => if in_range(p, v) {
            Ok(v)
        } else {
            Err(ProbeError::Range)
        },
    }
}

/// What a value says in bytes to a probe.
fn parse_bytes(p: Probe, v: &str) -> (r: Option<u64>)
    ensures
        match r {
            Some(n) => bytes_in(p, v@) == Some(n as nat),
            None => bytes_in(p, v@) is None,
        },
{
    match p {
        Probe::Register => match size(v) {
            Ok(n) => Some(n),
            Err(_) => None,
        },
        Probe::HostToDevice => text::parse_number(text::chars_of(v).as_slice(), u64::MAX),
    }
}

/// A probe's arguments, the program's name not among them.
pub fn parse_args(p: Probe, list: &[String]) -> (r: Result<ProbeArgs, ProbeError>)
    ensures
        r == probe_of(p, text::strings(list@)),
{
    let ghost all = text::strings(list@);
    let mut a: ProbeArgs = ProbeArgs { bytes: BYTES, reps: REPS, offset: 0 };
    let n: usize = list.len();
    let mut i: usize = 0;
    while i < n
        invariant
            i <= n == list@.len(),
            all == text::strings(list@),
            probe_from(p, all, 0, ProbeArgs { bytes: BYTES, reps: REPS, offset: 0 }) == probe_from(
                p,
                all,
                i as int,
                a,
            ),
        decreases n - i,
    {
        assert(all[i as int] == list@[i as int]@);
        let bytes: bool = text::same_str(list[i].as_str(), "--bytes");
        let reps: bool = text::same_str(list[i].as_str(), "--reps");
        let offset: bool = p == Probe::Register && text::same_str(list[i].as_str(), "--offset");
        if !bytes && !reps && !offset {
            return Err(ProbeError::Unknown(i));
        }
        if n - i < 2 {
            return Err(ProbeError::NoValue(i));
        }
        assert(all[i + 1] == list@[i + 1]@);
        let value: &str = list[i + 1].as_str();
        let got: Option<u64> = if bytes {
            parse_bytes(p, value)
        } else if reps {
            text::parse_number(text::chars_of(value).as_slice(), u64::MAX)
        } else {
            parse_bytes(Probe::Register, value)
        };
        match got {
            None => {
                return Err(ProbeError::Value(i));
            },
            Some(x) => {
                if bytes {
                    a.bytes = x;
                } else if reps {
                    a.reps = x;
                } else {
                    a.offset = x;
                }
            },
        }
        i += 2;
    }
    let few: bool = match p {
        Probe::Register => a.reps == 0,
        Probe::HostToDevice => a.reps < MIN_REPS,
    };
    if a.bytes == 0 || a.bytes % PAGE != 0 || a.offset % PAGE != 0 || few {
        return Err(ProbeError::Range);
    }
    Ok(a)
}

/// Whether a file of `len` bytes holds the probe's window.
pub fn holds_window(a: &ProbeArgs, len: u64) -> (r: bool)
    ensures
        r == (a.offset + a.bytes <= len),
{
    a.bytes <= len && a.offset <= len - a.bytes
}

// ------------------------------------------------------------ resident memory

/// A text without the units at its end.
pub open spec fn without_units(s: Seq<char>) -> Seq<char>
    decreases s.len(),
{
    if ends_with(s, "kB"@) && s.len() >= 2 {
        without_units(s.take(s.len() - 2))
    } else {
        s
    }
}

/// The first line from `at` on that opens with a key.
pub open spec fn line_with(lines: Seq<Seq<char>>, key: Seq<char>, at: int) -> Option<Seq<char>>
    decreases lines.len() - at,
{
    if at < 0 || at >= lines.len() {
        None
    } else if opens_with(lines[at], key) {
        Some(lines[at])
    } else {
        line_with(lines, key, at + 1)
    }
}

/// Why a process's status gives no number.
#[derive(Clone, Copy, Debug, PartialEq, Eq, Structural)]
pub enum StatusError {
    /// It has no such line.
    Missing,
    /// The line is no number of kB.
    Number,
}

/// What a line of a process's status says, in kB.
pub open spec fn status_kb(s: Seq<char>, key: Seq<char>) -> Result<nat, StatusError> {
    match line_with(text::lines(s), key, 0) {
        None => Err(StatusError::Missing),
        Some(l) => match number(
            trimmed(without_units(trimmed(l.skip(key.len() as int)))),
            u64::MAX as nat,
        ) {
            Some(n) => Ok(n),
            None => Err(StatusError::Number),
        },
    }
}

/// A text without the units at its end.
fn strip_units(s: Vec<char>) -> (r: Vec<char>)
    ensures
        r@ == without_units(s@),
    decreases s@.len(),
{
    proof {
        reveal_strlit("kB");
    }
    let units: Vec<char> = text::chars_of("kB");
    if text::ends(s.as_slice(), units.as_slice()) && s.len() >= 2 {
        let head: Vec<char> = text::piece(s.as_slice(), 0, s.len() - 2);
        assert(head@ =~= s@.take(s@.len() - 2));
        strip_units(head)
    } else {
        s
    }
}

/// A field of a process's status, in kB.
pub fn status_field(s: &str, key: &str) -> (r: Result<u64, StatusError>)
    ensures
        match r {
            Ok(n) => status_kb(s@, key@) == Ok::<nat, StatusError>(n as nat),
            Err(e) => status_kb(s@, key@) == Err::<nat, StatusError>(e),
        },
{
    let lines: Vec<Vec<char>> = text::lines_of(text::chars_of(s).as_slice());
    let ghost all = text::lines(s@);
    let want: Vec<char> = text::chars_of(key);
    let mut i: usize = 0;
    while i < lines.len()
        invariant
            i <= lines@.len(),
            text::pieces(lines@) == all,
            all == text::lines(s@),
            want@ == key@,
            line_with(all, key@, 0) == line_with(all, key@, i as int),
        decreases lines@.len() - i,
    {
        assert(all[i as int] == lines@[i as int]@);
        if text::starts(lines[i].as_slice(), want.as_slice()) {
            let rest: Vec<char> = text::piece(lines[i].as_slice(), want.len(), lines[i].len());
            assert(rest@ =~= lines@[i as int]@.skip(key@.len() as int));
            let kb: Vec<char> = strip_units(text::trim(rest.as_slice()));
            return match text::parse_number(text::trim(kb.as_slice()).as_slice(), u64::MAX) {
                Some(n) => Ok(n),
                None => Err(StatusError::Number),
            };
        }
        i += 1;
    }
    Err(StatusError::Missing)
}

/// A process's anonymous and file-backed resident memory, in kB, from its
/// status.
pub fn rss(s: &str) -> (r: Result<(u64, u64), StatusError>)
    ensures
        match r {
            Ok(v) => status_kb(s@, "RssAnon:"@) == Ok::<nat, StatusError>(v.0 as nat) && status_kb(
                s@,
                "RssFile:"@,
            ) == Ok::<nat, StatusError>(v.1 as nat),
            Err(e) => status_kb(s@, "RssAnon:"@) == Err::<nat, StatusError>(e) || (status_kb(
                s@,
                "RssAnon:"@,
            ) is Ok && status_kb(s@, "RssFile:"@) == Err::<nat, StatusError>(e)),
        },
{
    let anon: u64 = status_field(s, "RssAnon:")?;
    let file: u64 = status_field(s, "RssFile:")?;
    Ok((anon, file))
}

// ------------------------------------------------------------ what the words say

/// A size is the number written, times its unit's bytes where a unit follows it;
/// one past 64 bits is refused.
pub proof fn law_a_size_is_its_number_and_unit(n: nat)
    requires
        n <= u64::MAX,
    ensures
        size_of(text::decimal(n)) == Ok::<nat, SizeError>(n),
        n * 1024 <= u64::MAX ==> size_of(text::decimal(n).push('K')) == Ok::<nat, SizeError>(n * 1024),
        n * 1024 <= u64::MAX ==> size_of(text::decimal(n).push('k')) == Ok::<nat, SizeError>(n * 1024),
        n * 1048576 <= u64::MAX ==> size_of(text::decimal(n).push('M')) == Ok::<nat, SizeError>(n * 1048576),
        n * 1048576 <= u64::MAX ==> size_of(text::decimal(n).push('m')) == Ok::<nat, SizeError>(n * 1048576),
        n * 1073741824 <= u64::MAX ==> size_of(text::decimal(n).push('G')) == Ok::<nat, SizeError>(n * 1073741824),
        n * 1073741824 <= u64::MAX ==> size_of(text::decimal(n).push('g')) == Ok::<nat, SizeError>(n * 1073741824),
        n * 1024 > u64::MAX ==> size_of(text::decimal(n).push('K')) == Err::<nat, SizeError>(
            SizeError::Overflow,
        ),
{
    let d = text::decimal(n);
    text::lemma_decimal_value(n);
    text::law_number_reads_decimal(n, u64::MAX as nat);
    assert(text::is_digit(d[d.len() - 1]));
    assert(unit_of(d.last()) is None);
    let one = size_parts(d).1;
    assert(size_parts(d).0 == d && one == 1);
    assert(n * one == n) by (nonlinear_arith)
        requires
            one == 1,
    ;
    assert(d.push('K').drop_last() =~= d);
    assert(d.push('k').drop_last() =~= d);
    assert(d.push('M').drop_last() =~= d);
    assert(d.push('m').drop_last() =~= d);
    assert(d.push('G').drop_last() =~= d);
    assert(d.push('g').drop_last() =~= d);
}

/// A flag takes the word behind it and the last one counts; the offset is a flag of
/// the registering probe alone.
pub proof fn law_a_probes_flags_are_read_left_to_right(
    p: Probe,
    n: nat,
    rest: Seq<Seq<char>>,
    v: ProbeArgs,
    z: ProbeArgs,
)
    requires
        n <= u64::MAX,
    ensures
        probe_from(p, seq![], 0, v) == Ok::<ProbeArgs, ProbeError>(v),
        probe_from(p, rest, 0, (ProbeArgs { bytes: n as u64, ..v })) == Ok::<ProbeArgs, ProbeError>(z)
            ==> probe_from(p, seq!["--bytes"@, text::decimal(n)] + rest, 0, v) == Ok::<
            ProbeArgs,
            ProbeError,
        >(z),
        probe_from(p, rest, 0, (ProbeArgs { reps: n as u64, ..v })) == Ok::<ProbeArgs, ProbeError>(z)
            ==> probe_from(p, seq!["--reps"@, text::decimal(n)] + rest, 0, v) == Ok::<
            ProbeArgs,
            ProbeError,
        >(z),
        p == Probe::Register && probe_from(p, rest, 0, (ProbeArgs { offset: n as u64, ..v })) == Ok::<
            ProbeArgs,
            ProbeError,
        >(z) ==> probe_from(p, seq!["--offset"@, text::decimal(n)] + rest, 0, v) == Ok::<
            ProbeArgs,
            ProbeError,
        >(z),
        p == Probe::HostToDevice ==> probe_from(
            p,
            seq!["--offset"@, text::decimal(n)] + rest,
            0,
            v,
        ) == Err::<ProbeArgs, ProbeError>(ProbeError::Unknown(0)),
{
    reveal_strlit("--bytes");
    reveal_strlit("--reps");
    reveal_strlit("--offset");
    assert("--bytes"@.len() == 7 && "--reps"@.len() == 6 && "--offset"@.len() == 8);
    law_a_size_is_its_number_and_unit(n);
    text::law_number_reads_decimal(n, u64::MAX as nat);
    let d = text::decimal(n);
    let (a, b, c) = (seq!["--bytes"@, d] + rest, seq!["--reps"@, d] + rest, seq!["--offset"@, d]
        + rest);
    lemma_probe_shift(p, seq!["--bytes"@, d], rest, 0, (ProbeArgs { bytes: n as u64, ..v }));
    lemma_probe_shift(p, seq!["--reps"@, d], rest, 0, (ProbeArgs { reps: n as u64, ..v }));
    lemma_probe_shift(p, seq!["--offset"@, d], rest, 0, (ProbeArgs { offset: n as u64, ..v }));
    assert(a[0] == "--bytes"@ && a[1] == d);
    assert(b[0] == "--reps"@ && b[1] == d);
    assert(c[0] == "--offset"@ && c[1] == d);
}

proof fn lemma_probe_shift(p: Probe, a: Seq<Seq<char>>, rest: Seq<Seq<char>>, at: int, v: ProbeArgs)
    requires
        0 <= at,
    ensures
        probe_from(p, rest, at, v) is Ok ==> probe_from(p, a + rest, a.len() + at, v) == probe_from(
            p,
            rest,
            at,
            v,
        ),
    decreases rest.len() - at,
{
    let s = a + rest;
    let i = a.len() + at;
    if at < rest.len() {
        assert(s[i] == rest[at]);
        if at + 1 < rest.len() {
            assert(s[i + 1] == rest[at + 1]);
            if rest[at] == "--bytes"@ {
                if let Some(n) = bytes_in(p, rest[at + 1]) {
                    lemma_probe_shift(p, a, rest, at + 2, (ProbeArgs { bytes: n as u64, ..v }));
                }
            } else if rest[at] == "--reps"@ {
                if let Some(n) = number(rest[at + 1], u64::MAX as nat) {
                    lemma_probe_shift(p, a, rest, at + 2, (ProbeArgs { reps: n as u64, ..v }));
                }
            } else if let Ok(n) = size_of(rest[at + 1]) {
                lemma_probe_shift(p, a, rest, at + 2, (ProbeArgs { offset: n as u64, ..v }));
            }
        }
    }
}

/// The words that pass give whole pages at a whole page, and the repetitions that
/// the probe needs; with no words it is a gibibyte eight times from the start.
pub proof fn law_a_probe_is_of_whole_pages(p: Probe, a: Seq<Seq<char>>)
    ensures
        probe_of(p, a) matches Ok(v) ==> {
            &&& v.bytes >= 4096 && v.bytes % 4096 == 0 && v.offset % 4096 == 0
            &&& v.reps >= 1
            &&& p == Probe::HostToDevice ==> v.reps >= 5
        },
        probe_of(p, seq![]) == Ok::<ProbeArgs, ProbeError>(
            (ProbeArgs { bytes: 0x4000_0000, reps: 8, offset: 0 }),
        ),
{
}

/// A status field is the number on the first line that opens with its key, with
/// blanks round it and its unit behind it; lines before it that do not are passed
/// over.
pub proof fn law_a_status_field_is_its_lines_number(
    other: Seq<char>,
    key: Seq<char>,
    blanks: Seq<char>,
    n: nat,
    rest: Seq<char>,
)
    requires
        n <= u64::MAX,
        !other.contains('\n'),
        other.len() > 0 ==> other.last() != '\r',
        !opens_with(other, key),
        !key.contains('\n'),
        forall|i: int| 0 <= i < blanks.len() ==> (#[trigger] blanks[i] == ' ' || blanks[i] == '\t'),
    ensures
        status_kb(other + seq!['\n'] + rest, key) == status_kb(rest, key),
        status_kb(key + (blanks + text::decimal(n) + " kB"@) + seq!['\n'] + rest, key) == Ok::<
            nat,
            StatusError,
        >(n),
        key.len() > 0 ==> status_kb(seq![], key) == Err::<nat, StatusError>(StatusError::Missing),
{
    text::law_a_newline_ends_a_line(other, rest);
    let all = text::lines(other + seq!['\n'] + rest);
    assert(all =~= seq![other] + text::lines(rest));
    assert(all[0] == other);
    lemma_line_with_shift(other, text::lines(rest), key, 0);
    let d = text::decimal(n);
    text::lemma_decimal_value(n);
    reveal_strlit(" kB");
    reveal_strlit("kB");
    let tail = blanks + d + " kB"@;
    let line = key + tail;
    assert forall|i: int| 0 <= i < line.len() implies line[i] != '\n' by {
        if i < key.len() {
            assert(line[i] == key[i]);
        } else {
            let k = i - key.len();
            assert(line[i] == tail[k]);
            if k < blanks.len() {
                assert(tail[k] == blanks[k]);
            } else if k < blanks.len() + d.len() {
                assert(tail[k] == d[k - blanks.len()]);
                assert(text::is_digit(d[k - blanks.len()]));
            } else {
                assert(tail[k] == " kB"@[k - blanks.len() - d.len()]);
            }
        }
    }
    assert(line.last() == 'B');
    text::law_a_newline_ends_a_line(line, rest);
    let ls = text::lines(line + seq!['\n'] + rest);
    assert(ls =~= seq![line] + text::lines(rest));
    assert(ls[0] == line);
    assert(line.take(key.len() as int) =~= key);
    assert(line.skip(key.len() as int) =~= tail);
    let none = Seq::<char>::empty();
    let body = d + " kB"@;
    assert(text::is_digit(d[0]) && text::is_digit(d[d.len() - 1]));
    assert(body[0] == d[0] && body.last() == 'B');
    text::law_ascii_whitespace(d[0]);
    text::law_ascii_whitespace(d[d.len() - 1]);
    text::law_ascii_whitespace('B');
    text::law_ascii_whitespace(' ');
    text::law_ascii_whitespace('\t');
    text::law_trimming_takes_the_ends(blanks, body, none);
    assert(blanks + body + none =~= tail);
    assert(trimmed(tail) == body);
    assert(body.skip(body.len() - 2) =~= "kB"@);
    let short = body.take(body.len() - 2);
    assert(short =~= d + seq![' ']);
    assert(short.last() == ' ');
    assert("kB"@.last() == 'B');
    if short.len() >= 2 {
        assert(short.skip(short.len() - 2).last() == ' ');
    }
    assert(without_units(short) == short);
    assert(without_units(body) == short);
    text::law_trimming_takes_the_ends(none, d, seq![' ']);
    assert(none + d + seq![' '] =~= short);
    text::law_number_reads_decimal(n, u64::MAX as nat);
    assert(text::lines(none).len() == 0);
}

proof fn lemma_line_with_shift(first: Seq<char>, rest: Seq<Seq<char>>, key: Seq<char>, at: int)
    requires
        0 <= at,
    ensures
        line_with(seq![first] + rest, key, at + 1) == line_with(rest, key, at),
    decreases rest.len() - at,
{
    if at < rest.len() {
        assert((seq![first] + rest)[at + 1] == rest[at]);
        lemma_line_with_shift(first, rest, key, at + 1);
    }
}

} // verus!
