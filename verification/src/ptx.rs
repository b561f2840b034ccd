//! Reading the device code a gate binary carries. The build embeds the PTX
//! text of the whole kernel bundle in the executable's `.oxart` section, so a
//! kernel's compiled shape is a byte scan of that text: no device, no clock,
//! and the same answer the backend would report.
//!
//! The section is an oxide-artifacts container, and only that crate's parser
//! knows where a payload ends: a payload is stored with its length and padded
//! to 8 bytes, so no NUL is promised after the PTX text. Every reader here
//! therefore takes [`Module`]s, which only [`modules`] makes, out of the
//! bundles that the parser's output yields.
//!
//! PTX writes a fused multiply-add as `fma.rn.f32` or `fma.rm.f32`, never
//! `fma.f32`, so [`Counts::fma`] counts the `fma.` prefix.
use crate::count::count_where;
use crate::count::lemma_count_skip;
use crate::text;
use oxide_artifacts::ArtifactBundle;
use oxide_artifacts::ArtifactPayload;
use oxide_artifacts::ArtifactPayloadKind;
use oxide_artifacts::OwnedArtifactBundle;
use oxide_artifacts::OwnedArtifactPayload;
use vstd::prelude::*;
use vstd::slice::slice_subrange;
use vstd::utf8::encode_utf8;

verus! {

// ------------------------------------------------------------ byte search

/// `needle` stands in `hay` at offset `i`.
pub open spec fn match_at(hay: Seq<u8>, needle: Seq<u8>, i: int) -> bool {
    &&& 0 <= i
    &&& i + needle.len() <= hay.len()
    &&& hay.subrange(i, i + needle.len()) == needle
}

/// The first offset from `at` on at which `needle` stands in `hay`.
pub open spec fn next_match(hay: Seq<u8>, needle: Seq<u8>, at: int) -> Option<int>
    decreases hay.len() + 1 - at,
{
    if at < 0 || at + needle.len() > hay.len() {
        None
    } else if match_at(hay, needle, at) {
        Some(at)
    } else {
        next_match(hay, needle, at + 1)
    }
}

/// Where a search for `needle` in `hay` ends: an empty needle is found nowhere.
pub open spec fn first_match(hay: Seq<u8>, needle: Seq<u8>) -> Option<int> {
    if needle.len() == 0 {
        None
    } else {
        next_match(hay, needle, 0)
    }
}

/// An executable offset as a mathematical one.
pub open spec fn offset(r: Option<usize>) -> Option<int> {
    match r {
        Some(i) => Some(i as int),
        None => None,
    }
}

/// The search finds the least offset at which the needle stands, and finds
/// none only when there is none.
pub proof fn lemma_next_match_is_least(hay: Seq<u8>, needle: Seq<u8>, at: int)
    requires
        0 <= at,
    ensures
        match next_match(hay, needle, at) {
            Some(i) => at <= i && match_at(hay, needle, i) && forall|j: int|
                at <= j < i ==> !#[trigger] match_at(hay, needle, j),
            None => forall|j: int| at <= j ==> !#[trigger] match_at(hay, needle, j),
        },
    decreases hay.len() + 1 - at,
{
    if at + needle.len() <= hay.len() && !match_at(hay, needle, at) {
        lemma_next_match_is_least(hay, needle, at + 1);
    }
}

/// Whether `needle` stands at `i`.
fn matches_at(hay: &[u8], needle: &[u8], i: usize) -> (r: bool)
    requires
        i + needle@.len() <= hay@.len(),
    ensures
        r == match_at(hay@, needle@, i as int),
{
    let n: usize = hay.len();
    let mut k: usize = 0;
    while k < needle.len()
        invariant
            k <= needle@.len(),
            i + needle@.len() <= hay@.len() == n,
            forall|m: int| 0 <= m < k ==> hay@[i + m] == needle@[m],
        decreases needle@.len() - k,
    {
        if hay[i + k] != needle[k] {
            proof {
                assert(hay@.subrange(i as int, i + needle@.len())[k as int] != needle@[k as int]);
            }
            return false;
        }
        k += 1;
    }
    assert(hay@.subrange(i as int, i + needle@.len()) =~= needle@);
    true
}

/// The first offset from `at` on.
fn find_from(hay: &[u8], needle: &[u8], at: usize) -> (r: Option<usize>)
    requires
        at <= hay@.len(),
    ensures
        offset(r) == next_match(hay@, needle@, at as int),
        r matches Some(i) ==> at <= i && i + needle@.len() <= hay@.len(),
{
    let mut i: usize = at;
    while needle.len() <= hay.len() - i
        invariant
            at <= i <= hay@.len(),
            next_match(hay@, needle@, at as int) == next_match(hay@, needle@, i as int),
        decreases hay@.len() + 1 - i,
    {
        if matches_at(hay, needle, i) {
            return Some(i);
        }
        if i == hay.len() {
            assert(hay@.subrange(i as int, i + needle@.len()) =~= needle@);
            return None;
        }
        i += 1;
    }
    None
}

/// Byte offset of `needle` in `hay`.
#[must_use]
pub fn find(hay: &[u8], needle: &[u8]) -> (r: Option<usize>)
    ensures
        offset(r) == first_match(hay@, needle@),
        match r {
            Some(i) => needle@.len() > 0 && match_at(hay@, needle@, i as int) && forall|j: int|
                0 <= j < i ==> !#[trigger] match_at(hay@, needle@, j),
            None => needle@.len() == 0 || forall|j: int| !#[trigger] match_at(hay@, needle@, j),
        },
{
    if needle.len() == 0 {
        return None;
    }
    proof {
        lemma_next_match_is_least(hay@, needle@, 0);
    }
    find_from(hay, needle, 0)
}

/// The offsets at which `needle` stands in `hay`.
pub open spec fn match_pred(hay: Seq<u8>, needle: Seq<u8>) -> spec_fn(int) -> bool {
    |i: int| match_at(hay, needle, i)
}

/// How many times `needle` stands in `hay`, overlaps counted: an empty needle
/// stands nowhere.
pub open spec fn occurrences(hay: Seq<u8>, needle: Seq<u8>) -> nat {
    if needle.len() == 0 {
        0
    } else {
        count_where(hay.len() as int, match_pred(hay, needle))
    }
}

/// Occurrences of `needle` in `hay`, overlapping included.
#[must_use]
pub fn count(hay: &[u8], needle: &[u8]) -> (r: usize)
    ensures
        r == occurrences(hay@, needle@),
        r <= hay@.len(),
{
    if needle.len() == 0 || needle.len() > hay.len() {
        proof {
            assert(forall|i: int| needle@.len() > hay@.len() ==> !match_at(hay@, needle@, i));
            if needle@.len() > 0 {
                lemma_count_skip(0, hay@.len() as int, match_pred(hay@, needle@));
            }
        }
        return 0;
    }
    let mut n: usize = 0;
    let mut i: usize = 0;
    while i < hay.len()
        invariant
            i <= hay@.len(),
            n <= i,
            0 < needle@.len(),
            n == count_where(i as int, match_pred(hay@, needle@)),
        decreases hay@.len() - i,
    {
        if needle.len() <= hay.len() - i {
            if matches_at(hay, needle, i) {
                n += 1;
            }
        }
        i += 1;
    }
    n
}

// ------------------------------------------------------------ declarations

/// A blank, a tab or a line's end.
pub open spec fn is_space(c: u8) -> bool {
    c == 32 || c == 9 || c == 10
}

/// `directive` stands at `i` as its own token: whitespace or the text's start
/// before it, whitespace or an opening parenthesis after it.
pub open spec fn token_at(text: Seq<u8>, directive: Seq<u8>, i: int) -> bool {
    &&& match_at(text, directive, i)
    &&& i == 0 || is_space(text[i - 1])
    &&& i + directive.len() < text.len()
    &&& is_space(text[i + directive.len()]) || text[i + directive.len()] == 40
}

/// The first offset from `at` on at which `directive` stands as its own token.
pub open spec fn next_token(text: Seq<u8>, directive: Seq<u8>, at: int) -> Option<int>
    decreases text.len() - at,
{
    if at < 0 || at >= text.len() {
        None
    } else if token_at(text, directive, at) {
        Some(at)
    } else {
        next_token(text, directive, at + 1)
    }
}

/// The start of the line that holds offset `i`.
pub open spec fn line_start(text: Seq<u8>, i: int) -> int
    decreases i,
{
    if i <= 0 {
        0
    } else if text[i - 1] == 10 {
        i
    } else {
        line_start(text, i - 1)
    }
}

/// The start of the line that holds the first `directive` of `text`.
pub open spec fn directive_start(text: Seq<u8>, directive: Seq<u8>) -> Option<int> {
    match next_token(text, directive, 0) {
        Some(i) => Some(line_start(text, i)),
        None => None,
    }
}

/// A directive's first byte occurs once in it, so that two of its occurrences
/// never overlap.
pub open spec fn opens_once(directive: Seq<u8>) -> bool {
    &&& directive.len() > 0
    &&& forall|k: int| 1 <= k < directive.len() ==> #[trigger] directive[k] != directive[0]
}

/// A line starts at or before each offset it holds.
pub proof fn lemma_line_start(text: Seq<u8>, i: int)
    requires
        0 <= i <= text.len(),
    ensures
        0 <= line_start(text, i) <= i,
        line_start(text, i) == 0 || text[line_start(text, i) - 1] == 10,
        forall|k: int| line_start(text, i) <= k < i ==> text[k] != 10,
    decreases i,
{
    if i > 0 && text[i - 1] != 10 {
        lemma_line_start(text, i - 1);
    }
}

proof fn lemma_no_overlap(text: Seq<u8>, needle: Seq<u8>, i: int, j: int)
    requires
        opens_once(needle),
        match_at(text, needle, i),
        i < j < i + needle.len(),
    ensures
        !match_at(text, needle, j),
{
    if match_at(text, needle, j) {
        assert(text.subrange(i, i + needle.len())[j - i] == needle[j - i]);
        assert(text.subrange(j, j + needle.len())[0] == needle[0]);
    }
}

proof fn lemma_skip_tokens(text: Seq<u8>, directive: Seq<u8>, from: int, to: int)
    requires
        0 <= from <= to,
        forall|j: int| from <= j < to ==> !#[trigger] token_at(text, directive, j),
    ensures
        next_token(text, directive, from) == next_token(text, directive, to),
    decreases to - from,
{
    if from < to {
        assert(!token_at(text, directive, from));
        lemma_skip_tokens(text, directive, from + 1, to);
        if from >= text.len() {
            assert(next_token(text, directive, to) is None);
        }
    }
}

/// Whether `c` is a blank, a tab or a line's end.
fn space(c: u8) -> (r: bool)
    ensures
        r == is_space(c),
{
    c == 32 || c == 9 || c == 10
}

/// The start of the line that holds offset `i`.
fn line_start_of(text: &[u8], i: usize) -> (r: usize)
    requires
        i <= text@.len(),
    ensures
        r == line_start(text@, i as int),
        r <= i,
{
    let mut k: usize = i;
    while k > 0 && text[k - 1] != 10
        invariant
            k <= i <= text@.len(),
            line_start(text@, k as int) == line_start(text@, i as int),
        decreases k,
    {
        k -= 1;
    }
    k
}

/// Offset of the line that holds the first `directive` (`.entry`, `.func`) of
/// `text` that stands as its own token, so that `.callprototype`, a comment's
/// `.funcs` or a name that contains the word does not match.
fn directive_line(text: &[u8], directive: &[u8]) -> (r: Option<usize>)
    requires
        opens_once(directive@),
    ensures
        offset(r) == directive_start(text@, directive@),
        r matches Some(i) ==> i <= text@.len(),
{
    let mut at: usize = 0;
    loop
        invariant
            opens_once(directive@),
            at <= text@.len(),
            next_token(text@, directive@, 0) == next_token(text@, directive@, at as int),
        decreases text@.len() - at,
    {
        proof {
            lemma_next_match_is_least(text@, directive@, at as int);
        }
        match find_from(text, directive, at) {
            None => {
                proof {
                    lemma_skip_tokens(text@, directive@, at as int, text@.len() as int);
                }
                return None;
            },
            Some(i) => {
                let before: bool = i == 0 || space(text[i - 1]);
                let end: usize = i + directive.len();
                let after: bool = end < text.len() && (space(text[end]) || text[end] == 40);
                proof {
                    lemma_skip_tokens(text@, directive@, at as int, i as int);
                }
                if before && after {
                    return Some(line_start_of(text, i));
                }
                proof {
                    assert forall|j: int| i <= j < end implies !#[trigger] token_at(
                        text@,
                        directive@,
                        j,
                    ) by {
                        if i < j {
                            lemma_no_overlap(text@, directive@, i as int, j);
                        }
                    }
                    lemma_skip_tokens(text@, directive@, i as int, end as int);
                }
                at = end;
            },
        }
    }
}


// ------------------------------------------------------------ bundles

/// The kind of device code a payload holds.
#[derive(Clone, Copy, Debug, PartialEq, Eq, Structural)]
pub enum PayloadKind {
    Ptx,
    NvvmIr,
    Ltoir,
    Cubin,
}

impl PayloadKind {
    /// The container's number for the kind.
    pub open spec fn code(self) -> u16 {
        match self {
            PayloadKind::Ptx => 0x100,
            PayloadKind::NvvmIr => 0x110,
            PayloadKind::Ltoir => 0x120,
            PayloadKind::Cubin => 0x200,
        }
    }
}

/// One payload of a bundle: its kind and its bytes, as long as the container
/// records them.
#[derive(Clone, Debug)]
pub struct Payload {
    pub kind: PayloadKind,
    pub bytes: Vec<u8>,
}

/// One bundle of an `.oxart` section: its name and its payloads, in the order
/// the container lists them.
#[derive(Clone, Debug)]
pub struct Bundle {
    pub name: String,
    pub payloads: Vec<Payload>,
}

impl View for Payload {
    type V = (u16, Seq<u8>);

    open spec fn view(&self) -> (u16, Seq<u8>) {
        (self.kind.code(), self.bytes@)
    }
}

impl View for Bundle {
    type V = (Seq<char>, Seq<(u16, Seq<u8>)>);

    open spec fn view(&self) -> (Seq<char>, Seq<(u16, Seq<u8>)>) {
        (self.name@, self.payloads@.map_values(|p: Payload| p@))
    }
}

/// The views of a list of bundles.
pub open spec fn bundle_views(bundles: Seq<Bundle>) -> Seq<(Seq<char>, Seq<(u16, Seq<u8>)>)> {
    bundles.map_values(|b: Bundle| b@)
}

/// The bytes of the first payload of the kind with number `code`.
pub open spec fn payload_of(payloads: Seq<(u16, Seq<u8>)>, code: u16) -> Option<Seq<u8>>
    decreases payloads.len(),
{
    if payloads.len() == 0 {
        None
    } else if payloads[0].0 == code {
        Some(payloads[0].1)
    } else {
        payload_of(payloads.drop_first(), code)
    }
}

impl Bundle {
    /// The bytes of the bundle's first payload of `kind`.
    pub fn payload(&self, kind: PayloadKind) -> (r: Option<&[u8]>)
        ensures
            match r {
                Some(b) => payload_of(self@.1, kind.code()) == Some(b@),
                None => payload_of(self@.1, kind.code()) is None,
            },
    {
        assert(self@.1.skip(0) =~= self@.1);
        let mut i: usize = 0;
        while i < self.payloads.len()
            invariant
                i <= self.payloads@.len(),
                payload_of(self@.1, kind.code()) == payload_of(
                    self@.1.skip(i as int),
                    kind.code(),
                ),
            decreases self.payloads@.len() - i,
        {
            assert(self@.1.skip(i as int).drop_first() =~= self@.1.skip(i + 1));
            assert(self@.1.skip(i as int)[0] == self.payloads@[i as int]@);
            if self.payloads[i].kind == kind {
                return Some(self.payloads[i].bytes.as_slice());
            }
            i += 1;
        }
        None
    }
}

/// Why an `.oxart` section gives no modules.
#[derive(Debug)]
pub enum BundleError {
    /// The container does not parse; the parser's own error.
    Container(oxide_artifacts::ArtifactError),
    /// These bundles carry a Cubin beside their PTX: the loader runs the
    /// Cubin, so their PTX is not the device code.
    Shadowed(Vec<String>),
}

/// The error type of the container's parser, carried as it is.
#[verifier::external_type_specification]
#[verifier::external_body]
pub struct ExArtifactError(oxide_artifacts::ArtifactError);

/// The bundles that oxide-artifacts' section parser cuts out of `section`:
/// each with its name and its payloads' kind numbers and bytes. `None` where
/// the parser rejects the container.
pub uninterp spec fn parsed_section(section: Seq<u8>) -> Option<
    Seq<(Seq<char>, Seq<(u16, Seq<u8>)>)>,
>;

/// The bundles that oxide-artifacts' object reader finds in the bytes of an
/// object file or executable. `None` where it rejects the file or a section.
pub uninterp spec fn parsed_object(object: Seq<u8>) -> Option<
    Seq<(Seq<char>, Seq<(u16, Seq<u8>)>)>,
>;

/// `bytes` is a stretch of `section`.
pub open spec fn stretch_of(bytes: Seq<u8>, section: Seq<u8>) -> bool {
    exists|i: int| #[trigger] match_at(section, bytes, i)
}

/// `oxide_artifacts::parse_artifact_section`, its bundles copied into
/// [`Bundle`]s field by field. The result is a function of the section's
/// bytes alone; a section of zero bytes only, the empty one among them, holds
/// no bundle; and each payload is a stretch of the section, for the parser
/// hands out slices of it.
#[verifier::external_body]
fn parse_section(section: &[u8]) -> (r: Result<Vec<Bundle>, oxide_artifacts::ArtifactError>)
    ensures
        match r {
            Ok(b) => parsed_section(section@) == Some(bundle_views(b@)),
            Err(_) => parsed_section(section@) is None,
        },
        (forall|i: int| 0 <= i < section@.len() ==> section@[i] == 0) ==> r is Ok && r->Ok_0@.len()
            == 0,
        r matches Ok(b) ==> forall|i: int, j: int|
            0 <= i < b@.len() && 0 <= j < b@[i].payloads@.len() ==> stretch_of(
                (#[trigger] b@[i].payloads@[j]).bytes@,
                section@,
            ),
{
    let bundles = oxide_artifacts::parse_artifact_section(section)?;
    let own = |p: ArtifactPayload<'_>| Payload {
        kind: match p.kind {
            ArtifactPayloadKind::Ptx => PayloadKind::Ptx,
            ArtifactPayloadKind::NvvmIr => PayloadKind::NvvmIr,
            ArtifactPayloadKind::Ltoir => PayloadKind::Ltoir,
            ArtifactPayloadKind::Cubin => PayloadKind::Cubin,
        },
        bytes: p.bytes.to_vec(),
    };
    let whole = |b: ArtifactBundle<'_>| {
        Bundle { name: b.name.to_string(), payloads: b.payloads.into_iter().map(own).collect() }
    };
    Ok(bundles.into_iter().map(whole).collect())
}

/// `oxide_artifacts::read_artifact_bundles_from_object_bytes`, its bundles
/// copied into [`Bundle`]s field by field. The result is a function of the
/// file's bytes alone.
#[verifier::external_body]
fn parse_object(object: &[u8]) -> (r: Result<Vec<Bundle>, oxide_artifacts::ArtifactError>)
    ensures
        match r {
            Ok(b) => parsed_object(object@) == Some(bundle_views(b@)),
            Err(_) => parsed_object(object@) is None,
        },
{
    let bundles = oxide_artifacts::read_artifact_bundles_from_object_bytes(object)?;
    let own = |p: OwnedArtifactPayload| Payload {
        kind: match p.kind {
            ArtifactPayloadKind::Ptx => PayloadKind::Ptx,
            ArtifactPayloadKind::NvvmIr => PayloadKind::NvvmIr,
            ArtifactPayloadKind::Ltoir => PayloadKind::Ltoir,
            ArtifactPayloadKind::Cubin => PayloadKind::Cubin,
        },
        bytes: p.bytes,
    };
    let whole = |b: OwnedArtifactBundle| {
        Bundle { name: b.name, payloads: b.payloads.into_iter().map(own).collect() }
    };
    Ok(bundles.into_iter().map(whole).collect())
}

/// A bundle whose PTX a Cubin shadows.
pub open spec fn is_shadowed(b: (Seq<char>, Seq<(u16, Seq<u8>)>)) -> bool {
    &&& payload_of(b.1, PayloadKind::Ptx.code()) is Some
    &&& payload_of(b.1, PayloadKind::Cubin.code()) is Some
}

/// The names of the shadowed bundles, in bundle order.
pub open spec fn shadowed_names(bundles: Seq<(Seq<char>, Seq<(u16, Seq<u8>)>)>) -> Seq<Seq<char>>
    decreases bundles.len(),
{
    if bundles.len() == 0 {
        seq![]
    } else {
        let rest = shadowed_names(bundles.drop_last());
        if is_shadowed(bundles.last()) {
            rest.push(bundles.last().0)
        } else {
            rest
        }
    }
}

/// Refuses bundles that carry a Cubin as well as a PTX payload, by their
/// names. The loader takes the Cubin first and never hands the driver that
/// PTX, so a scan of it would describe code that does not run.
pub fn ptx_is_what_loads(bundles: &[Bundle]) -> (r: Result<(), Vec<String>>)
    ensures
        match r {
            Ok(()) => shadowed_names(bundle_views(bundles@)).len() == 0,
            Err(names) => names@.len() > 0 && text::strings(names@) == shadowed_names(
                bundle_views(bundles@),
            ),
        },
{
    let mut names: Vec<String> = Vec::new();
    let mut i: usize = 0;
    while i < bundles.len()
        invariant
            i <= bundles@.len(),
            text::strings(names@) == shadowed_names(bundle_views(bundles@).take(i as int)),
        decreases bundles@.len() - i,
    {
        let b: &Bundle = &bundles[i];
        proof {
            let next = bundle_views(bundles@).take(i + 1);
            assert(next.drop_last() =~= bundle_views(bundles@).take(i as int));
            assert(next.last() == b@);
        }
        let ghost before = names@;
        if b.payload(PayloadKind::Ptx).is_some() && b.payload(PayloadKind::Cubin).is_some() {
            names.push(b.name.clone());
            assert(text::strings(names@) =~= text::strings(before).push(b.name@));
        }
        i += 1;
    }
    assert(bundle_views(bundles@).take(bundles@.len() as int) =~= bundle_views(bundles@));
    if names.len() == 0 {
        Ok(())
    } else {
        Err(names)
    }
}

/// The bundles of an `.oxart` section's bytes, cut by oxide-artifacts'
/// parser. An error where the parser rejects the container, or where a bundle
/// carries a Cubin beside its PTX.
pub fn section_bundles(section: &[u8]) -> (r: Result<Vec<Bundle>, BundleError>)
    ensures
        match r {
            Ok(b) => {
                &&& parsed_section(section@) == Some(bundle_views(b@))
                &&& shadowed_names(bundle_views(b@)).len() == 0
            },
            Err(BundleError::Container(_)) => parsed_section(section@) is None,
            Err(BundleError::Shadowed(names)) => {
                &&& parsed_section(section@) is Some
                &&& names@.len() > 0
                &&& text::strings(names@) == shadowed_names(parsed_section(section@)->0)
            },
        },
        (forall|i: int| 0 <= i < section@.len() ==> section@[i] == 0) ==> r is Ok && r->Ok_0@.len()
            == 0,
        r matches Ok(b) ==> forall|i: int, j: int|
            0 <= i < b@.len() && 0 <= j < b@[i].payloads@.len() ==> stretch_of(
                (#[trigger] b@[i].payloads@[j]).bytes@,
                section@,
            ),
{
    match parse_section(section) {
        Err(e) => Err(BundleError::Container(e)),
        Ok(bundles) => match ptx_is_what_loads(bundles.as_slice()) {
            Err(names) => {
                assert(bundles@.len() == 0 ==> shadowed_names(bundle_views(bundles@)).len() == 0);
                assert(text::strings(names@).len() == names@.len());
                Err(BundleError::Shadowed(names))
            },
            Ok(()) => Ok(bundles),
        },
    }
}

/// The `.oxart` bundles of an executable's bytes, read by oxide-artifacts'
/// object reader: the call the module loader makes on the same file, so a
/// gate scans the text the driver is handed. Refuses what [`section_bundles`]
/// refuses.
pub fn object_bundles(object: &[u8]) -> (r: Result<Vec<Bundle>, BundleError>)
    ensures
        match r {
            Ok(b) => {
                &&& parsed_object(object@) == Some(bundle_views(b@))
                &&& shadowed_names(bundle_views(b@)).len() == 0
            },
            Err(BundleError::Container(_)) => parsed_object(object@) is None,
            Err(BundleError::Shadowed(names)) => {
                &&& parsed_object(object@) is Some
                &&& names@.len() > 0
                &&& text::strings(names@) == shadowed_names(parsed_object(object@)->0)
            },
        },
{
    match parse_object(object) {
        Err(e) => Err(BundleError::Container(e)),
        Ok(bundles) => match ptx_is_what_loads(bundles.as_slice()) {
            Err(names) => Err(BundleError::Shadowed(names)),
            Ok(()) => Ok(bundles),
        },
    }
}

/// One PTX module: the PTX payload of one bundle, exactly as long as the
/// container records it. Only [`modules`] makes one.
#[derive(Clone, Copy, Debug)]
pub struct Module<'a> {
    bundle: &'a str,
    text: &'a [u8],
}

impl<'a> View for Module<'a> {
    type V = (Seq<char>, Seq<u8>);

    closed spec fn view(&self) -> (Seq<char>, Seq<u8>) {
        (self.bundle@, self.text@)
    }
}

impl<'a> Module<'a> {
    /// The name of the bundle the payload belongs to.
    #[must_use]
    pub fn bundle(&self) -> (r: &'a str)
        ensures
            r@ == self@.0,
    {
        self.bundle
    }

    /// The PTX text: the payload's bytes and nothing past them.
    #[must_use]
    pub fn text(&self) -> (r: &'a [u8])
        ensures
            r@ == self@.1,
    {
        self.text
    }
}

/// The bundle names and texts of a list of modules.
pub open spec fn module_views(modules: Seq<Module<'_>>) -> Seq<(Seq<char>, Seq<u8>)> {
    modules.map_values(|m: Module<'_>| m@)
}

/// The bundles that carry a PTX payload, each with that payload's bytes.
pub open spec fn ptx_texts(bundles: Seq<(Seq<char>, Seq<(u16, Seq<u8>)>)>) -> Seq<
    (Seq<char>, Seq<u8>),
>
    decreases bundles.len(),
{
    if bundles.len() == 0 {
        seq![]
    } else {
        let rest = ptx_texts(bundles.drop_last());
        match payload_of(bundles.last().1, PayloadKind::Ptx.code()) {
            Some(bytes) => rest.push((bundles.last().0, bytes)),
            None => rest,
        }
    }
}

/// The PTX modules of `bundles`: one per bundle that carries a PTX payload, in
/// bundle order.
#[must_use]
pub fn modules(bundles: &[Bundle]) -> (r: Vec<Module<'_>>)
    ensures
        module_views(r@) == ptx_texts(bundle_views(bundles@)),
{
    let mut out: Vec<Module<'_>> = Vec::new();
    let mut i: usize = 0;
    while i < bundles.len()
        invariant
            i <= bundles@.len(),
            module_views(out@) == ptx_texts(bundle_views(bundles@).take(i as int)),
        decreases bundles@.len() - i,
    {
        let b: &Bundle = &bundles[i];
        proof {
            let next = bundle_views(bundles@).take(i + 1);
            assert(next.drop_last() =~= bundle_views(bundles@).take(i as int));
            assert(next.last() == b@);
        }
        let ghost before = out@;
        match b.payload(PayloadKind::Ptx) {
            Some(bytes) => {
                let m: Module<'_> = Module { bundle: b.name.as_str(), text: bytes };
                out.push(m);
                assert(module_views(out@) =~= module_views(before).push((b.name@, bytes@)));
            },
            None => {},
        }
        i += 1;
    }
    assert(bundle_views(bundles@).take(bundles@.len() as int) =~= bundle_views(bundles@));
    out
}

// ------------------------------------------------------------ entries

/// What an entry's declaration opens with: the marker, its name and a
/// parenthesis.
pub open spec fn entry_head(name: Seq<char>) -> Seq<u8> {
    encode_utf8(".visible .entry "@) + encode_utf8(name) + encode_utf8("("@)
}

/// Where the text after an entry's head stops being that entry's: at the line
/// of the next `.entry`, or before it at the line of a `.func`, or at the end.
pub open spec fn body_end(rest: Seq<u8>) -> int {
    let end = match directive_start(rest, encode_utf8(".entry"@)) {
        Some(i) => i,
        None => rest.len() as int,
    };
    match directive_start(rest.take(end), encode_utf8(".func"@)) {
        Some(i) => i,
        None => end,
    }
}

/// The body of the entry `name` in one module's text.
pub open spec fn body_in(text: Seq<u8>, name: Seq<char>) -> Option<Seq<u8>> {
    match first_match(text, entry_head(name)) {
        None => None,
        Some(i) => {
            let rest = text.skip(i + entry_head(name).len());
            Some(rest.take(body_end(rest)))
        },
    }
}

/// The body of the entry `name`: that of the first module that declares it.
pub open spec fn body_of(modules: Seq<(Seq<char>, Seq<u8>)>, name: Seq<char>) -> Option<Seq<u8>>
    decreases modules.len(),
{
    if modules.len() == 0 {
        None
    } else {
        match body_in(modules[0].1, name) {
            Some(b) => Some(b),
            None => body_of(modules.drop_first(), name),
        }
    }
}

proof fn lemma_directives_open_once()
    ensures
        opens_once(encode_utf8(".entry"@)),
        opens_once(encode_utf8(".func"@)),
{
    reveal_strlit(".entry");
    reveal_strlit(".func");
    vstd::utf8::is_ascii_chars_encode_utf8(".entry"@);
    vstd::utf8::is_ascii_chars_encode_utf8(".func"@);
}

/// The search for a token ends at a token.
pub proof fn lemma_next_token_is_least(text: Seq<u8>, directive: Seq<u8>, at: int)
    requires
        0 <= at,
    ensures
        match next_token(text, directive, at) {
            Some(i) => at <= i < text.len() && token_at(text, directive, i) && forall|j: int|
                at <= j < i ==> !#[trigger] token_at(text, directive, j),
            None => forall|j: int| at <= j ==> !#[trigger] token_at(text, directive, j),
        },
    decreases text.len() - at,
{
    if at < text.len() && !token_at(text, directive, at) {
        lemma_next_token_is_least(text, directive, at + 1);
    }
}

proof fn lemma_directive_start_range(text: Seq<u8>, directive: Seq<u8>)
    ensures
        directive_start(text, directive) matches Some(i) ==> 0 <= i <= text.len(),
{
    lemma_next_token_is_least(text, directive, 0);
    if let Some(i) = next_token(text, directive, 0) {
        lemma_line_start(text, i);
    }
}

/// The bytes an entry's declaration opens with.
fn head_bytes(name: &str) -> (r: Vec<u8>)
    ensures
        r@ == entry_head(name@),
        r@.len() > 0,
{
    let mut head: Vec<u8> = Vec::new();
    head.extend_from_slice(".visible .entry ".as_bytes());
    head.extend_from_slice(name.as_bytes());
    head.extend_from_slice("(".as_bytes());
    proof {
        reveal_strlit("(");
        vstd::utf8::is_ascii_chars_encode_utf8("("@);
        assert(head@ =~= entry_head(name@));
    }
    head
}

/// The body of the entry that `head` opens, in one module's text.
fn body_after<'a>(text: &'a [u8], head: &[u8], name: Ghost<Seq<char>>) -> (r: Option<&'a [u8]>)
    requires
        head@ == entry_head(name@),
        head@.len() > 0,
    ensures
        match r {
            Some(b) => body_in(text@, name@) == Some(b@),
            None => body_in(text@, name@) is None,
        },
{
    match find(text, head) {
        None => None,
        Some(i) => {
            let n: usize = text.len();
            let start: usize = i + head.len();
            let rest: &'a [u8] = slice_subrange(text, start, n);
            proof {
                lemma_directives_open_once();
                lemma_directive_start_range(rest@, encode_utf8(".entry"@));
                assert(rest@ =~= text@.skip(start as int));
            }
            let end: usize = match directive_line(rest, ".entry".as_bytes()) {
                Some(e) => e,
                None => rest.len(),
            };
            let upto: &'a [u8] = slice_subrange(rest, 0, end);
            proof {
                assert(upto@ =~= rest@.take(end as int));
                lemma_directive_start_range(upto@, encode_utf8(".func"@));
            }
            let stop: usize = match directive_line(upto, ".func".as_bytes()) {
                Some(e) => e,
                None => end,
            };
            let b: &'a [u8] = slice_subrange(rest, 0, stop);
            assert(b@ =~= rest@.take(body_end(rest@)));
            Some(b)
        },
    }
}

/// The PTX body of one `.visible .entry`: from just past its `name(` to the
/// line of the next declaration (the next entry, or a `.func`, a device
/// function's definition or prototype, whose instructions are not the
/// entry's), or to the end of its module. `None` when no module declares an
/// entry of that name.
#[must_use]
pub fn body<'a>(modules: &[Module<'a>], name: &str) -> (r: Option<&'a [u8]>)
    ensures
        match r {
            Some(b) => body_of(module_views(modules@), name@) == Some(b@),
            None => body_of(module_views(modules@), name@) is None,
        },
{
    let head: Vec<u8> = head_bytes(name);
    assert(module_views(modules@).skip(0) =~= module_views(modules@));
    let mut i: usize = 0;
    while i < modules.len()
        invariant
            i <= modules@.len(),
            head@ == entry_head(name@),
            head@.len() > 0,
            body_of(module_views(modules@), name@) == body_of(
                module_views(modules@).skip(i as int),
                name@,
            ),
        decreases modules@.len() - i,
    {
        proof {
            let tail = module_views(modules@).skip(i as int);
            assert(tail.drop_first() =~= module_views(modules@).skip(i + 1));
            assert(tail[0] == modules@[i as int]@);
        }
        match body_after(modules[i].text, head.as_slice(), Ghost(name@)) {
            Some(b) => {
                return Some(b);
            },
            None => {},
        }
        i += 1;
    }
    None
}

// ------------------------------------------------------------ instructions

/// A `call` instruction's mnemonic stands at `i` as its own token: `call`,
/// `call.uni`, predicated or not.
pub open spec fn call_at(body: Seq<u8>, i: int) -> bool {
    &&& match_at(body, encode_utf8("call"@), i)
    &&& i == 0 || is_space(body[i - 1]) || body[i - 1] == 123 || body[i - 1] == 59
    &&& i + 4 < body.len()
    &&& body[i + 4] == 46 || body[i + 4] == 32 || body[i + 4] == 9
}

/// The offsets of the `call` instructions.
pub open spec fn call_pred(body: Seq<u8>) -> spec_fn(int) -> bool {
    |i: int| call_at(body, i)
}

proof fn lemma_call_opens_once()
    ensures
        opens_once(encode_utf8("call"@)),
        encode_utf8("call"@).len() == 4,
{
    reveal_strlit("call");
    vstd::utf8::is_ascii_chars_encode_utf8("call"@);
}

/// `call` instructions in `body`: the mnemonic as its own token, not
/// `.callprototype` or the `// callseq` comments around a call. An entry that
/// calls has its callee's work outside its [`body`], so every count read from
/// that body leaves it out.
#[must_use]
pub fn calls(body: &[u8]) -> (r: usize)
    ensures
        r == count_where(body@.len() as int, call_pred(body@)),
        r <= body@.len(),
{
    let len: usize = body.len();
    let mut n: usize = 0;
    let mut at: usize = 0;
    proof {
        lemma_call_opens_once();
    }
    loop
        invariant
            at <= len == body@.len(),
            n <= at,
            n == count_where(at as int, call_pred(body@)),
            opens_once(encode_utf8("call"@)),
            encode_utf8("call"@).len() == 4,
        decreases len - at,
    {
        proof {
            lemma_next_match_is_least(body@, encode_utf8("call"@), at as int);
        }
        match find_from(body, "call".as_bytes(), at) {
            None => {
                proof {
                    lemma_count_skip(at as int, len as int, call_pred(body@));
                }
                return n;
            },
            Some(i) => {
                let before: bool = i == 0 || space(body[i - 1]) || body[i - 1] == 123 || body[i - 1]
                    == 59;
                let after: bool = i + 4 < len && (body[i + 4] == 46 || body[i + 4] == 32
                    || body[i + 4] == 9);
                proof {
                    lemma_count_skip(at as int, i as int, call_pred(body@));
                    assert forall|j: int| i + 1 <= j < i + 4 implies !(#[trigger] call_pred(body@)(
                        j,
                    )) by {
                        lemma_no_overlap(body@, encode_utf8("call"@), i as int, j);
                    }
                    lemma_count_skip(i + 1, i + 4, call_pred(body@));
                    assert(call_pred(body@)(i as int) == (before && after));
                }
                if before && after {
                    n += 1;
                }
                at = i + 4;
            },
        }
    }
}

// ------------------------------------------------------------ entry names

/// A letter, a digit, `_` or `$`.
pub open spec fn is_name_byte(c: u8) -> bool {
    48 <= c <= 57 || 65 <= c <= 90 || 97 <= c <= 122 || c == 95 || c == 36
}

/// The end of the run of name bytes that starts at `i`.
pub open spec fn name_end(text: Seq<u8>, i: int) -> int
    decreases text.len() - i,
{
    if 0 <= i < text.len() && is_name_byte(text[i]) {
        name_end(text, i + 1)
    } else {
        i
    }
}

/// Bytes below 128 as characters.
pub open spec fn ascii(bytes: Seq<u8>) -> Seq<char> {
    bytes.map_values(|b: u8| b as char)
}

/// The name declared at the entry marker at `i`.
pub open spec fn name_at(text: Seq<u8>, i: int) -> Seq<char> {
    let start = i + encode_utf8(".visible .entry "@).len();
    ascii(text.subrange(start, name_end(text, start)))
}

/// The names that `text` declares from `at` on, in order: one for each entry
/// marker that a name follows.
pub open spec fn names_from(text: Seq<u8>, at: int) -> Seq<Seq<char>>
    decreases text.len() - at,
{
    if at < 0 || at >= text.len() {
        seq![]
    } else if match_at(text, encode_utf8(".visible .entry "@), at) && name_at(text, at).len() > 0 {
        seq![name_at(text, at)] + names_from(text, at + 1)
    } else {
        names_from(text, at + 1)
    }
}

/// Every entry name, module by module.
pub open spec fn entry_names(modules: Seq<(Seq<char>, Seq<u8>)>) -> Seq<Seq<char>>
    decreases modules.len(),
{
    if modules.len() == 0 {
        seq![]
    } else {
        entry_names(modules.drop_last()) + names_from(modules.last().1, 0)
    }
}

proof fn lemma_name_end(text: Seq<u8>, i: int)
    requires
        0 <= i <= text.len(),
    ensures
        i <= name_end(text, i) <= text.len(),
    decreases text.len() - i,
{
    if i < text.len() && is_name_byte(text[i]) {
        lemma_name_end(text, i + 1);
    }
}

proof fn lemma_entry_marker()
    ensures
        encode_utf8(".visible .entry "@).len() == 16,
        forall|k: int|
            0 <= k < 16 ==> (#[trigger] encode_utf8(".visible .entry "@)[k] == 46 <==> (k == 0 || k
                == 9)),
        encode_utf8(".visible .entry "@)[1] == 118,
        encode_utf8(".visible .entry "@)[10] == 101,
{
    reveal_strlit(".visible .entry ");
    vstd::utf8::is_ascii_chars_encode_utf8(".visible .entry "@);
}

proof fn lemma_markers_apart(text: Seq<u8>, i: int, j: int)
    requires
        match_at(text, encode_utf8(".visible .entry "@), i),
        i < j < i + 16,
    ensures
        !match_at(text, encode_utf8(".visible .entry "@), j),
{
    let m = encode_utf8(".visible .entry "@);
    lemma_entry_marker();
    if match_at(text, m, j) {
        assert(text.subrange(i, i + 16)[j - i] == m[j - i]);
        assert(text.subrange(j, j + 16)[0] == m[0]);
        assert(j == i + 9);
        assert(text.subrange(i, i + 16)[10] == m[10]);
        assert(text.subrange(j, j + 16)[1] == m[1]);
    }
}

proof fn lemma_skip_names(text: Seq<u8>, from: int, to: int)
    requires
        0 <= from <= to,
        forall|j: int|
            from <= j < to ==> !#[trigger] match_at(text, encode_utf8(".visible .entry "@), j),
    ensures
        names_from(text, from) == names_from(text, to),
    decreases to - from,
{
    if from < to {
        assert(!match_at(text, encode_utf8(".visible .entry "@), from));
        lemma_skip_names(text, from + 1, to);
        if from >= text.len() {
            assert(names_from(text, to) =~= seq![]);
        }
    }
}

/// The run of name bytes that starts at `start`.
fn name_after(text: &[u8], start: usize) -> (r: Vec<char>)
    requires
        start <= text@.len(),
    ensures
        r@ == ascii(text@.subrange(start as int, name_end(text@, start as int))),
{
    let mut name: Vec<char> = Vec::new();
    let mut i: usize = start;
    while i < text.len() && (48 <= text[i] && text[i] <= 57 || 65 <= text[i] && text[i] <= 90 || 97
        <= text[i] && text[i] <= 122 || text[i] == 95 || text[i] == 36)
        invariant
            start <= i <= text@.len(),
            name_end(text@, start as int) == name_end(text@, i as int),
            name@ =~= ascii(text@.subrange(start as int, i as int)),
        decreases text@.len() - i,
    {
        name.push(text[i] as char);
        i += 1;
    }
    name
}

/// Appends the names that `text` declares to `out`.
fn names_into(text: &[u8], out: &mut Vec<Vec<char>>)
    ensures
        names(final(out)@) == names(old(out)@) + names_from(text@, 0),
{
    let len: usize = text.len();
    let mut at: usize = 0;
    let ghost before = names(out@);
    proof {
        lemma_entry_marker();
    }
    loop
        invariant
            at <= text@.len() == len,
            before == names(old(out)@),
            before + names_from(text@, 0) == names(out@) + names_from(text@, at as int),
            encode_utf8(".visible .entry "@).len() == 16,
        decreases text@.len() - at,
    {
        proof {
            lemma_next_match_is_least(text@, encode_utf8(".visible .entry "@), at as int);
        }
        match find_from(text, ".visible .entry ".as_bytes(), at) {
            None => {
                proof {
                    lemma_skip_names(text@, at as int, text@.len() as int);
                    assert(names(out@) + names_from(text@, text@.len() as int) =~= names(out@));
                }
                return ;
            },
            Some(i) => {
                let name: Vec<char> = name_after(text, i + 16);
                let ghost held = out@;
                proof {
                    lemma_skip_names(text@, at as int, i as int);
                    assert forall|j: int| i + 1 <= j < i + 16 implies !#[trigger] match_at(
                        text@,
                        encode_utf8(".visible .entry "@),
                        j,
                    ) by {
                        lemma_markers_apart(text@, i as int, j);
                    }
                    lemma_skip_names(text@, i + 1, i + 16);
                    assert(name@ == name_at(text@, i as int));
                }
                if name.len() > 0 {
                    let ghost n = name@;
                    out.push(name);
                    proof {
                        assert(names(out@) =~= names(held).push(n));
                        assert(names(held) + (seq![n] + names_from(text@, i + 16)) =~= names(out@)
                            + names_from(text@, i + 16));
                    }
                }
                at = i + 16;
            },
        }
    }
}

/// The character sequences of a list of names.
spec fn names(v: Seq<Vec<char>>) -> Seq<Seq<char>> {
    v.map_values(|n: Vec<char>| n@)
}

/// The entry names of all modules, as characters.
fn all_names(modules: &[Module<'_>]) -> (r: Vec<Vec<char>>)
    ensures
        names(r@) == entry_names(module_views(modules@)),
{
    let mut out: Vec<Vec<char>> = Vec::new();
    let mut i: usize = 0;
    while i < modules.len()
        invariant
            i <= modules@.len(),
            names(out@) == entry_names(module_views(modules@).take(i as int)),
        decreases modules@.len() - i,
    {
        proof {
            let next = module_views(modules@).take(i + 1);
            assert(next.drop_last() =~= module_views(modules@).take(i as int));
            assert(next.last() == modules@[i as int]@);
        }
        names_into(modules[i].text, &mut out);
        i += 1;
    }
    assert(module_views(modules@).take(modules@.len() as int) =~= module_views(modules@));
    out
}

/// Every entry name, module by module, in the order the text declares them.
#[must_use]
pub fn entries(modules: &[Module<'_>]) -> (r: Vec<String>)
    ensures
        text::strings(r@) == entry_names(module_views(modules@)),
{
    let all: Vec<Vec<char>> = all_names(modules);
    let mut out: Vec<String> = Vec::new();
    let mut i: usize = 0;
    while i < all.len()
        invariant
            i <= all@.len(),
            text::strings(out@) =~= names(all@).take(i as int),
        decreases all@.len() - i,
    {
        let ghost held = text::strings(out@);
        let name: String = text::string_of(all[i].as_slice());
        let ghost added = name@;
        out.push(name);
        assert(text::strings(out@) =~= held.push(added));
        i += 1;
    }
    assert(names(all@).take(all@.len() as int) =~= names(all@));
    out
}

// ------------------------------------------------------------ counts

/// The number written in decimal digits at `at`, continuing the number `acc`.
pub open spec fn digits_from(text: Seq<u8>, at: int, acc: nat) -> nat
    decreases text.len() - at,
{
    if 0 <= at < text.len() && 48 <= text[at] <= 57 {
        digits_from(text, at + 1, acc * 10 + (text[at] - 48) as nat)
    } else {
        acc
    }
}

proof fn lemma_digits_grow(text: Seq<u8>, at: int, acc: nat)
    ensures
        digits_from(text, at, acc) >= acc,
    decreases text.len() - at,
{
    if 0 <= at < text.len() && 48 <= text[at] <= 57 {
        lemma_digits_grow(text, at + 1, acc * 10 + (text[at] - 48) as nat);
    }
}

/// The block width of an entry body: the number after its first `.reqntid `,
/// where one is written there and the machine's index type holds it.
pub open spec fn block_width(body: Seq<u8>) -> Option<nat> {
    match first_match(body, encode_utf8(".reqntid "@)) {
        None => None,
        Some(i) => {
            let at = i + encode_utf8(".reqntid "@).len();
            if at < body.len() && 48 <= body[at] <= 57 && digits_from(body, at, 0) <= usize::MAX {
                Some(digits_from(body, at, 0))
            } else {
                None
            }
        },
    }
}

/// The `x` of an entry body's `.reqntid x, y, z`: the block width the device
/// code was compiled for. `None` when the entry declares none.
#[must_use]
pub fn reqntid(body: &[u8]) -> (r: Option<usize>)
    ensures
        match r {
            Some(x) => block_width(body@) == Some(x as nat),
            None => block_width(body@) is None,
        },
{
    proof {
        reveal_strlit(".reqntid ");
        vstd::utf8::is_ascii_chars_encode_utf8(".reqntid "@);
    }
    let len: usize = body.len();
    match find(body, ".reqntid ".as_bytes()) {
        None => None,
        Some(i) => {
            let start: usize = i + 9;
            let mut at: usize = start;
            let mut x: usize = 0;
            while at < len && 48 <= body[at] && body[at] <= 57
                invariant
                    start <= at <= len == body@.len(),
                    digits_from(body@, start as int, 0) == digits_from(body@, at as int, x as nat),
                    at > start ==> 48 <= body@[start as int] <= 57,
                    first_match(body@, encode_utf8(".reqntid "@)) == Some(i as int),
                    start == i + 9,
                    encode_utf8(".reqntid "@).len() == 9,
                decreases len - at,
            {
                let d: usize = (body[at] - 48) as usize;
                proof {
                    lemma_digits_grow(body@, at + 1, (x * 10 + d) as nat);
                }
                match x.checked_mul(10) {
                    None => {
                        return None;
                    },
                    Some(tens) => match tens.checked_add(d) {
                        None => {
                            return None;
                        },
                        Some(next) => {
                            x = next;
                        },
                    },
                }
                at += 1;
            }
            if at == start {
                return None;
            }
            Some(x)
        },
    }
}

/// What one entry's compiled body carries. `depot` is the register spill the
/// backend names `__local_depot<n>`; `ld_local` and `st_local` are the traffic
/// it costs. `fma` and `cvt_f16` are shape only: they say whether the
/// body multiplies and adds in one instruction and whether it widens `f16` in
/// hardware. `calls` counts the body's `call` instructions: when it is not
/// zero, every other count here is the entry's own body without its callees'.
#[derive(Debug, Clone, PartialEq, Eq)]
pub struct Counts {
    pub name: String,
    pub reqntid: Option<usize>,
    pub depot: bool,
    pub ld_local: usize,
    pub st_local: usize,
    pub fma: usize,
    pub cvt_f16: usize,
    pub calls: usize,
}

impl Counts {
    /// These are the counts of the entry `name` whose body is `b`.
    pub open spec fn describes(self, name: Seq<char>, b: Seq<u8>) -> bool {
        &&& self.name@ == name
        &&& match self.reqntid {
            Some(x) => block_width(b) == Some(x as nat),
            None => block_width(b) is None,
        }
        &&& self.depot == (first_match(b, encode_utf8("__local_depot"@)) is Some)
        &&& self.ld_local == occurrences(b, encode_utf8("ld.local"@))
        &&& self.st_local == occurrences(b, encode_utf8("st.local"@))
        &&& self.fma == occurrences(b, encode_utf8("fma."@))
        &&& self.cvt_f16 == occurrences(b, encode_utf8("cvt.f32.f16"@))
        &&& self.calls == count_where(b.len() as int, call_pred(b))
    }
}

/// Read one entry's counts out of the modules.
#[must_use]
pub fn counts(modules: &[Module<'_>], name: &str) -> (r: Option<Counts>)
    ensures
        match r {
            Some(c) => body_of(module_views(modules@), name@) is Some && c.describes(
                name@,
                body_of(module_views(modules@), name@)->0,
            ),
            None => body_of(module_views(modules@), name@) is None,
        },
{
    match body(modules, name) {
        None => None,
        Some(b) => Some(
            Counts {
                name: name.to_owned(),
                reqntid: reqntid(b),
                depot: find(b, "__local_depot".as_bytes()).is_some(),
                ld_local: count(b, "ld.local".as_bytes()),
                st_local: count(b, "st.local".as_bytes()),
                fma: count(b, "fma.".as_bytes()),
                cvt_f16: count(b, "cvt.f32.f16".as_bytes()),
                calls: calls(b),
            },
        ),
    }
}

/// Where one entry stands before another in a scan: those that carry a local
/// depot first, names ascending inside each group.
pub open spec fn scans_before(a: Counts, b: Counts) -> bool {
    (a.depot && !b.depot) || (a.depot == b.depot && text::lex_less(a.name@, b.name@))
}

/// `out` lists in scan order the counts of exactly those entries named in
/// `names` that have a body, each once.
pub open spec fn is_scan(
    out: Seq<Counts>,
    names: Seq<Seq<char>>,
    modules: Seq<(Seq<char>, Seq<u8>)>,
) -> bool {
    &&& forall|i: int, j: int|
        0 <= i < j < out.len() ==> scans_before(#[trigger] out[i], #[trigger] out[j])
    &&& forall|i: int|
        0 <= i < out.len() ==> {
            let name = (#[trigger] out[i]).name@;
            &&& names.contains(name)
            &&& body_of(modules, name) is Some
            &&& out[i].describes(name, body_of(modules, name)->0)
        }
    &&& forall|k: int|
        0 <= k < names.len() && body_of(modules, #[trigger] names[k]) is Some ==> listed(
            out,
            names[k],
        )
}

/// An entry of `out` carries `name`.
pub open spec fn listed(out: Seq<Counts>, name: Seq<char>) -> bool {
    exists|i: int| 0 <= i < out.len() && (#[trigger] out[i]).name@ == name
}

/// Whether `a` stands before `b` in a scan.
fn stands_before(a: &Counts, b: &Counts) -> (r: bool)
    ensures
        r == scans_before(*a, *b),
{
    if a.depot != b.depot {
        return a.depot;
    }
    text::less(
        text::chars_of(a.name.as_str()).as_slice(),
        text::chars_of(b.name.as_str()).as_slice(),
    )
}

proof fn lemma_scan_order(a: Counts, b: Counts, c: Counts)
    ensures
        scans_before(a, b) && scans_before(b, c) ==> scans_before(a, c),
        a.name@ != b.name@ ==> scans_before(a, b) || scans_before(b, a),
{
    if scans_before(a, b) && scans_before(b, c) && a.depot == b.depot && b.depot == c.depot {
        text::lemma_lex_transitive(a.name@, b.name@, c.name@, 0);
    }
    if a.name@ != b.name@ && !scans_before(a, b) && !scans_before(b, a) {
        assert(a.name@.take(0) =~= b.name@.take(0));
        text::lemma_lex_total(a.name@, b.name@, 0);
    }
}

/// Whether an entry of `out` carries `name`.
fn is_listed(out: &[Counts], name: &[char]) -> (r: bool)
    ensures
        r == listed(out@, name@),
{
    let mut i: usize = 0;
    while i < out.len()
        invariant
            i <= out@.len(),
            forall|k: int| 0 <= k < i ==> (#[trigger] out@[k]).name@ != name@,
        decreases out@.len() - i,
    {
        if text::same(text::chars_of(out[i].name.as_str()).as_slice(), name) {
            return true;
        }
        i += 1;
    }
    false
}

/// Puts `c`, whose name is not listed yet, where it stands in scan order.
fn place(out: &mut Vec<Counts>, c: Counts)
    requires
        forall|i: int, j: int|
            0 <= i < j < old(out)@.len() ==> scans_before(
                #[trigger] old(out)@[i],
                #[trigger] old(out)@[j],
            ),
        !listed(old(out)@, c.name@),
    ensures
        forall|i: int, j: int|
            0 <= i < j < final(out)@.len() ==> scans_before(
                #[trigger] final(out)@[i],
                #[trigger] final(out)@[j],
            ),
        exists|p: int|
            0 <= p <= old(out)@.len() && final(out)@ == #[trigger] old(out)@.insert(p, c),
{
    let mut p: usize = 0;
    while p < out.len() && stands_before(&out[p], &c)
        invariant
            p <= out@.len(),
            out@ == old(out)@,
            forall|k: int| 0 <= k < p ==> scans_before(#[trigger] out@[k], c),
        decreases out@.len() - p,
    {
        p += 1;
    }
    proof {
        assert forall|k: int| p <= k < out@.len() implies scans_before(c, #[trigger] out@[k]) by {
            assert(out@[p as int].name@ != c.name@);
            lemma_scan_order(out@[p as int], c, c);
            if k > p {
                lemma_scan_order(c, out@[p as int], out@[k]);
            }
        }
    }
    let ghost held = out@;
    out.insert(p, c);
    assert(out@ == held.insert(p as int, c));
    assert forall|i: int, j: int| 0 <= i < j < out@.len() implies scans_before(
        #[trigger] out@[i],
        #[trigger] out@[j],
    ) by {
        let a = if i < p { i } else { i - 1 };
        let b = if j < p { j } else { j - 1 };
        if i != p && j != p {
            assert(held[a] == out@[i] && held[b] == out@[j]);
        } else if i == p {
            assert(held[b] == out@[j]);
        } else {
            assert(held[a] == out@[i]);
        }
    }
}

/// Every entry of the modules, sorted so that the ones carrying a local depot
/// come first and names ascend inside each group: the order a reader wants,
/// because a depot is the defect and the rest is context.
#[must_use]
pub fn scan(modules: &[Module<'_>]) -> (r: Vec<Counts>)
    ensures
        is_scan(r@, entry_names(module_views(modules@)), module_views(modules@)),
{
    let all: Vec<Vec<char>> = all_names(modules);
    let ghost views = module_views(modules@);
    let mut out: Vec<Counts> = Vec::new();
    let mut k: usize = 0;
    assert(names(all@).take(0) =~= seq![]);
    while k < all.len()
        invariant
            k <= all@.len(),
            views == module_views(modules@),
            is_scan(out@, names(all@).take(k as int), views),
        decreases all@.len() - k,
    {
        let ghost seen = names(all@).take(k as int);
        let ghost next = names(all@).take(k + 1);
        let ghost held = out@;
        let ghost n = all@[k as int]@;
        assert(next =~= seen.push(n));
        proof {
            assert forall|m: Seq<char>| seen.contains(m) implies next.contains(m) by {
                let w = choose|w: int| 0 <= w < seen.len() && seen[w] == m;
                assert(next[w] == m);
            }
            assert(next[k as int] == n);
        }
        if !is_listed(out.as_slice(), all[k].as_slice()) {
            let name: String = text::string_of(all[k].as_slice());
            match counts(modules, name.as_str()) {
                None => {},
                Some(c) => {
                    place(&mut out, c);
                    proof {
                        let p = choose|p: int|
                            0 <= p <= held.len() && out@ == #[trigger] held.insert(p, c);
                        assert(out@[p] == c);
                        assert forall|i: int| 0 <= i < held.len() implies listed(
                            out@,
                            (#[trigger] held[i]).name@,
                        ) by {
                            if i < p {
                                assert(out@[i] == held[i]);
                            } else {
                                assert(out@[i + 1] == held[i]);
                            }
                        }
                        assert forall|i: int| 0 <= i < out@.len() implies {
                            let name = (#[trigger] out@[i]).name@;
                            &&& next.contains(name)
                            &&& body_of(views, name) is Some
                            &&& out@[i].describes(name, body_of(views, name)->0)
                        } by {
                            if i < p {
                                assert(out@[i] == held[i]);
                            } else if i > p {
                                assert(out@[i] == held[i - 1]);
                            }
                        }
                    }
                },
            }
        }
        proof {
            assert forall|m: int| 0 <= m < next.len() && body_of(views, #[trigger] next[m]) is Some
                implies listed(out@, next[m]) by {
                if m < k {
                    assert(next[m] == seen[m]);
                    assert(listed(held, seen[m]));
                    let i = choose|i: int| 0 <= i < held.len() && (#[trigger] held[i]).name@ == seen[m];
                    assert(listed(out@, held[i].name@));
                }
            }
        }
        k += 1;
    }
    assert(names(all@).take(all@.len() as int) =~= names(all@));
    out
}

// ------------------------------------------------------------ laws

/// A body never runs past its module: it is a stretch of the text of one of
/// the modules.
pub proof fn law_body_stays_in_its_module(modules: Seq<(Seq<char>, Seq<u8>)>, name: Seq<char>)
    ensures
        body_of(modules, name) matches Some(b) ==> exists|k: int|
            0 <= k < modules.len() && stretch_of(b, (#[trigger] modules[k]).1),
    decreases modules.len(),
{
    if modules.len() > 0 {
        let text = modules[0].1;
        match body_in(text, name) {
            Some(b) => {
                lemma_next_match_is_least(text, entry_head(name), 0);
                let i = first_match(text, entry_head(name))->0;
                let start = i + entry_head(name).len();
                let rest = text.skip(start);
                lemma_body_end(rest);
                assert(text.subrange(start, start + b.len()) =~= b);
                assert(match_at(text, b, start));
            },
            None => {
                law_body_stays_in_its_module(modules.drop_first(), name);
                if let Some(b) = body_of(modules, name) {
                    let k = choose|k: int|
                        0 <= k < modules.drop_first().len() && stretch_of(
                            b,
                            (#[trigger] modules.drop_first()[k]).1,
                        );
                    assert(modules[k + 1] == modules.drop_first()[k]);
                }
            },
        }
    }
}

/// A body holds no further declaration: neither `.entry` nor `.func` stands in
/// it as its own token.
pub proof fn law_body_holds_no_declaration(rest: Seq<u8>)
    ensures
        next_token(rest.take(body_end(rest)), encode_utf8(".entry"@), 0) is None,
        next_token(rest.take(body_end(rest)), encode_utf8(".func"@), 0) is None,
{
    let entry = encode_utf8(".entry"@);
    let func = encode_utf8(".func"@);
    lemma_body_end(rest);
    let end = match directive_start(rest, entry) {
        Some(i) => i,
        None => rest.len() as int,
    };
    lemma_directive_start_range(rest, entry);
    lemma_prefix_holds_no_token(rest, entry, end);
    lemma_prefix_holds_no_token(rest.take(end), func, body_end(rest));
    assert(rest.take(end).take(body_end(rest)) =~= rest.take(body_end(rest))) by {
        lemma_directive_start_range(rest.take(end), func);
    }
    lemma_directive_start_range(rest.take(end), func);
    lemma_shorter_holds_no_token(rest.take(end), entry, body_end(rest));
}

/// A text that is cut at the line of a directive's first token, or that has
/// none, holds no such token.
proof fn lemma_prefix_holds_no_token(text: Seq<u8>, directive: Seq<u8>, end: int)
    requires
        end == (match directive_start(text, directive) {
            Some(i) => i,
            None => text.len() as int,
        }),
    ensures
        0 <= end <= text.len(),
        next_token(text.take(end), directive, 0) is None,
{
    lemma_directive_start_range(text, directive);
    lemma_next_token_is_least(text, directive, 0);
    lemma_next_token_is_least(text.take(end), directive, 0);
    if let Some(i) = next_token(text, directive, 0) {
        lemma_line_start(text, i);
    }
    if let Some(j) = next_token(text.take(end), directive, 0) {
        lemma_token_extends(text, directive, end, j);
        assert(token_at(text, directive, j));
    }
}

proof fn lemma_shorter_holds_no_token(text: Seq<u8>, directive: Seq<u8>, end: int)
    requires
        0 <= end <= text.len(),
        next_token(text, directive, 0) is None,
    ensures
        next_token(text.take(end), directive, 0) is None,
{
    lemma_next_token_is_least(text, directive, 0);
    lemma_next_token_is_least(text.take(end), directive, 0);
    if let Some(j) = next_token(text.take(end), directive, 0) {
        lemma_token_extends(text, directive, end, j);
        assert(token_at(text, directive, j));
    }
}

proof fn lemma_token_extends(text: Seq<u8>, directive: Seq<u8>, end: int, j: int)
    requires
        0 <= end <= text.len(),
        token_at(text.take(end), directive, j),
    ensures
        token_at(text, directive, j),
{
    assert(text.take(end).subrange(j, j + directive.len()) =~= text.subrange(
        j,
        j + directive.len(),
    ));
}

proof fn lemma_body_end(rest: Seq<u8>)
    ensures
        0 <= body_end(rest) <= rest.len(),
{
    lemma_directive_start_range(rest, encode_utf8(".entry"@));
    let end = match directive_start(rest, encode_utf8(".entry"@)) {
        Some(i) => i,
        None => rest.len() as int,
    };
    lemma_directive_start_range(rest.take(end), encode_utf8(".func"@));
}

// ------------------------------------------------------------ what is declared

/// A character of an entry's name.
pub open spec fn of_a_name(c: char) -> bool {
    ('a' <= c && c <= 'z') || ('A' <= c && c <= 'Z') || ('0' <= c && c <= '9') || c == '_' || c
        == '$'
}

/// Every declaration `.visible .entry NAME(` with a name of letters, digits, `_`
/// or `$` is listed under that name, and the listed name has a body.
pub proof fn law_a_declared_entry_is_listed(
    modules: Seq<(Seq<char>, Seq<u8>)>,
    m: int,
    a: Seq<u8>,
    name: Seq<char>,
    b: Seq<u8>,
)
    requires
        0 <= m < modules.len(),
        modules[m].1 == a + encode_utf8(".visible .entry "@) + encode_utf8(name) + encode_utf8(
            "("@,
        ) + b,
        name.len() > 0,
        forall|k: int| 0 <= k < name.len() ==> of_a_name(#[trigger] name[k]),
    ensures
        names_from(modules[m].1, 0).contains(name),
        entry_names(modules).contains(name),
        body_of(modules, name) is Some,
{
    let text = modules[m].1;
    let marker = encode_utf8(".visible .entry "@);
    let at = a.len() as int;
    let start = at + 16;
    let end = start + name.len();
    lemma_entry_marker();
    lemma_ascii_name(name);
    reveal_strlit("(");
    vstd::utf8::is_ascii_chars_encode_utf8("("@);
    assert(text.subrange(at, at + 16) =~= marker);
    assert(match_at(text, marker, at));
    assert forall|k: int| start <= k < end implies is_name_byte(#[trigger] text[k]) by {
        assert(text[k] == encode_utf8(name)[k - start]);
    }
    assert(text[end] == encode_utf8("("@)[0]);
    lemma_name_end_is(text, start, end);
    assert(text.subrange(start, end) =~= encode_utf8(name));
    assert(ascii(encode_utf8(name)) =~= name);
    assert(name_at(text, at) == name);
    lemma_names_hold(text, 0, at);
    lemma_entry_names_hold(modules, m, name);
    let head = entry_head(name);
    assert(head =~= marker + encode_utf8(name) + encode_utf8("("@));
    assert(text.subrange(at, at + head.len()) =~= head);
    assert(match_at(text, head, at));
    lemma_next_match_is_least(text, head, 0);
    assert(body_in(text, name) is Some);
    lemma_a_module_gives_a_body(modules, m, name);
}

/// Every listed name is declared: it is made of name characters, the marker and
/// the name stand together in the text, and no further name character follows.
pub proof fn law_a_listed_entry_is_declared(text: Seq<u8>, k: int)
    requires
        0 <= k < names_from(text, 0).len(),
    ensures
        ({
            let name = names_from(text, 0)[k];
            &&& name.len() > 0
            &&& forall|j: int| 0 <= j < name.len() ==> of_a_name(#[trigger] name[j])
            &&& exists|i: int|
                0 <= i && #[trigger] match_at(
                    text,
                    encode_utf8(".visible .entry "@) + encode_utf8(name),
                    i,
                ) && (i + 16 + name.len() < text.len() ==> !of_a_name(
                    text[i + 16 + name.len()] as char,
                ))
        }),
{
    lemma_listed_from(text, 0, k);
}

proof fn lemma_listed_from(text: Seq<u8>, at: int, k: int)
    requires
        0 <= at,
        0 <= k < names_from(text, at).len(),
    ensures
        ({
            let name = names_from(text, at)[k];
            &&& name.len() > 0
            &&& forall|j: int| 0 <= j < name.len() ==> of_a_name(#[trigger] name[j])
            &&& exists|i: int|
                0 <= i && #[trigger] match_at(
                    text,
                    encode_utf8(".visible .entry "@) + encode_utf8(name),
                    i,
                ) && (i + 16 + name.len() < text.len() ==> !of_a_name(
                    text[i + 16 + name.len()] as char,
                ))
        }),
    decreases text.len() - at,
{
    let marker = encode_utf8(".visible .entry "@);
    lemma_entry_marker();
    if match_at(text, marker, at) && name_at(text, at).len() > 0 {
        if k == 0 {
            let name = name_at(text, at);
            let (start, end) = (at + 16, name_end(text, at + 16));
            lemma_name_end(text, start);
            lemma_name_run(text, start);
            assert forall|j: int| 0 <= j < name.len() implies of_a_name(#[trigger] name[j]) by {
                assert(is_name_byte(text[start + j]));
            }
            lemma_ascii_name(name);
            assert(encode_utf8(name) =~= text.subrange(start, end));
            assert(text.subrange(at, at + 16) =~= marker);
            assert(text.subrange(at, end) =~= marker + encode_utf8(name));
            assert(match_at(text, marker + encode_utf8(name), at));
        } else {
            lemma_listed_from(text, at + 1, k - 1);
        }
    } else {
        lemma_listed_from(text, at + 1, k);
    }
}

/// The bytes of a name are its characters.
proof fn lemma_ascii_name(name: Seq<char>)
    requires
        forall|k: int| 0 <= k < name.len() ==> of_a_name(#[trigger] name[k]),
    ensures
        encode_utf8(name).len() == name.len(),
        forall|k: int|
            0 <= k < name.len() ==> {
                &&& #[trigger] encode_utf8(name)[k] == name[k] as u8
                &&& encode_utf8(name)[k] as char == name[k]
                &&& is_name_byte(encode_utf8(name)[k])
            },
{
    assert(vstd::utf8::is_ascii_chars(name)) by {
        assert forall|i: int| 0 <= i < name.len() implies '\0' <= #[trigger] name[i] <= '\u{7f}' by {
            assert(of_a_name(name[i]));
        }
    }
    vstd::utf8::is_ascii_chars_encode_utf8(name);
    assert forall|k: int| 0 <= k < name.len() implies {
        &&& #[trigger] encode_utf8(name)[k] == name[k] as u8
        &&& encode_utf8(name)[k] as char == name[k]
        &&& is_name_byte(encode_utf8(name)[k])
    } by {
        assert(of_a_name(name[k]));
    }
}

proof fn lemma_name_end_is(text: Seq<u8>, i: int, end: int)
    requires
        0 <= i <= end < text.len(),
        forall|k: int| i <= k < end ==> is_name_byte(#[trigger] text[k]),
        !is_name_byte(text[end]),
    ensures
        name_end(text, i) == end,
    decreases end - i,
{
    if i < end {
        lemma_name_end_is(text, i + 1, end);
    }
}

proof fn lemma_name_run(text: Seq<u8>, i: int)
    requires
        0 <= i <= text.len(),
    ensures
        forall|k: int| i <= k < name_end(text, i) ==> is_name_byte(#[trigger] text[k]),
        name_end(text, i) < text.len() ==> !is_name_byte(text[name_end(text, i)]),
    decreases text.len() - i,
{
    if i < text.len() && is_name_byte(text[i]) {
        lemma_name_run(text, i + 1);
    }
}

proof fn lemma_names_hold(text: Seq<u8>, from: int, at: int)
    requires
        0 <= from <= at < text.len(),
        match_at(text, encode_utf8(".visible .entry "@), at),
        name_at(text, at).len() > 0,
    ensures
        names_from(text, from).contains(name_at(text, at)),
    decreases at - from,
{
    let name = name_at(text, at);
    if from == at {
        assert(names_from(text, from)[0] == name);
    } else {
        lemma_names_hold(text, from + 1, at);
        let rest = names_from(text, from + 1);
        let w = choose|w: int| 0 <= w < rest.len() && rest[w] == name;
        if match_at(text, encode_utf8(".visible .entry "@), from) && name_at(text, from).len() > 0 {
            assert(names_from(text, from)[w + 1] == name);
        } else {
            assert(names_from(text, from)[w] == name);
        }
    }
}

proof fn lemma_entry_names_hold(modules: Seq<(Seq<char>, Seq<u8>)>, m: int, name: Seq<char>)
    requires
        0 <= m < modules.len(),
        names_from(modules[m].1, 0).contains(name),
    ensures
        entry_names(modules).contains(name),
    decreases modules.len(),
{
    let before = entry_names(modules.drop_last());
    let last = names_from(modules.last().1, 0);
    if m == modules.len() - 1 {
        let w = choose|w: int| 0 <= w < last.len() && last[w] == name;
        assert(entry_names(modules)[before.len() + w] == name);
    } else {
        lemma_entry_names_hold(modules.drop_last(), m, name);
        let w = choose|w: int| 0 <= w < before.len() && before[w] == name;
        assert(entry_names(modules)[w] == name);
    }
}

proof fn lemma_a_module_gives_a_body(modules: Seq<(Seq<char>, Seq<u8>)>, m: int, name: Seq<char>)
    requires
        0 <= m < modules.len(),
        body_in(modules[m].1, name) is Some,
    ensures
        body_of(modules, name) is Some,
    decreases modules.len(),
{
    if body_in(modules[0].1, name) is None {
        assert(modules.drop_first()[m - 1] == modules[m]);
        lemma_a_module_gives_a_body(modules.drop_first(), m - 1, name);
    }
}

// ------------------------------------------------------------ where a body ends

/// A directive stands at `i` by itself: a blank, a tab, a line's end or nothing
/// before it, and one of these or a parenthesis after it.
pub open spec fn alone_at(text: Seq<u8>, directive: Seq<char>, i: int) -> bool {
    let d = encode_utf8(directive);
    &&& 0 <= i && i + d.len() < text.len()
    &&& text.subrange(i, i + d.len()) == d
    &&& i > 0 ==> seq![' ', '\t', '\n'].contains(text[i - 1] as char)
    &&& seq![' ', '\t', '\n', '('].contains(text[i + d.len()] as char)
}

proof fn lemma_alone_is_a_token(text: Seq<u8>, directive: Seq<char>, i: int)
    ensures
        alone_at(text, directive, i) == token_at(text, encode_utf8(directive), i),
{
    let d = encode_utf8(directive);
    let (s, t) = (seq![' ', '\t', '\n'], seq![' ', '\t', '\n', '(']);
    assert(s[0] == ' ' && s[1] == '\t' && s[2] == '\n');
    assert(t[0] == ' ' && t[1] == '\t' && t[2] == '\n' && t[3] == '(');
    if 0 < i <= text.len() {
        assert(s.contains(text[i - 1] as char) == is_space(text[i - 1]));
    }
    if 0 <= i && i + d.len() < text.len() {
        let c = text[i + d.len()];
        assert(t.contains(c as char) == (is_space(c) || c == 40));
    }
}

/// An entry's body is exactly the text between its head and the line of the next
/// declaration: where no `.entry` and no `.func` stands by itself in `body`, and
/// what follows it is nothing or a line that declares, the body is `body`. The
/// first module that declares the entry is the one read.
pub proof fn law_a_body_runs_to_the_next_declaration(
    modules: Seq<(Seq<char>, Seq<u8>)>,
    m: int,
    a: Seq<u8>,
    name: Seq<char>,
    body: Seq<u8>,
    after: Seq<u8>,
    j: int,
    func: bool,
)
    requires
        0 <= m < modules.len(),
        ({
            let head = encode_utf8(".visible .entry "@) + encode_utf8(name) + encode_utf8("("@);
            let rest = body + after;
            let text = modules[m].1;
            &&& text == a + head + rest
            &&& forall|i: int| 0 <= i < a.len() ==> !#[trigger] match_at(text, head, i)
            &&& forall|k: int, i: int|
                0 <= k < m ==> !#[trigger] match_at(modules[k].1, head, i)
            &&& forall|i: int|
                0 <= i < body.len() ==> !#[trigger] alone_at(rest, ".entry"@, i) && !alone_at(
                    rest,
                    ".func"@,
                    i,
                )
            &&& after.len() > 0 ==> {
                &&& body.len() > 0 ==> body.last() == 10
                &&& body.len() <= j
                &&& alone_at(rest, if func { ".func"@ } else { ".entry"@ }, j)
                &&& forall|i: int| body.len() <= i < j ==> rest[i] != 10
            }
        }),
    ensures
        body_of(modules, name) == Some(body),
    decreases m,
{
    let head = entry_head(name);
    let rest = body + after;
    let text = modules[m].1;
    if m > 0 {
        assert(body_in(modules[0].1, name) is None) by {
            lemma_next_match_is_least(modules[0].1, head, 0);
        }
        let tail = modules.drop_first();
        assert(tail[m - 1] == modules[m]);
        assert forall|k: int, i: int| 0 <= k < m - 1 implies !#[trigger] match_at(
            tail[k].1,
            head,
            i,
        ) by {
            assert(tail[k] == modules[k + 1]);
        }
        law_a_body_runs_to_the_next_declaration(tail, m - 1, a, name, body, after, j, func);
    } else {
        reveal_strlit("(");
        vstd::utf8::is_ascii_chars_encode_utf8("("@);
        let at = a.len() as int;
        assert(text.subrange(at, at + head.len()) =~= head);
        assert(match_at(text, head, at));
        lemma_next_match_is_least(text, head, 0);
        assert(first_match(text, head) == Some(at));
        assert(text.skip(at + head.len()) =~= rest);
        lemma_body_end_is(rest, body.len() as int, j, func);
        assert(rest.take(body.len() as int) =~= body);
    }
}

/// A line starts no earlier than an end of line before it.
proof fn lemma_line_start_from(text: Seq<u8>, c: int, i: int)
    requires
        0 <= c <= i <= text.len(),
        c == 0 || text[c - 1] == 10,
    ensures
        c <= line_start(text, i),
        (forall|k: int| c <= k < i ==> text[k] != 10) ==> line_start(text, i) == c,
{
    lemma_line_start(text, i);
    let s = line_start(text, i);
    if s < c {
        assert(text[c - 1] != 10);
    }
    if s > c {
        assert(text[s - 1] == 10);
    }
}

proof fn lemma_body_end_is(rest: Seq<u8>, c: int, j: int, func: bool)
    requires
        0 <= c <= rest.len(),
        forall|i: int|
            0 <= i < c ==> !#[trigger] alone_at(rest, ".entry"@, i) && !alone_at(
                rest,
                ".func"@,
                i,
            ),
        c < rest.len() ==> {
            &&& c > 0 ==> rest[c - 1] == 10
            &&& c <= j
            &&& alone_at(rest, if func { ".func"@ } else { ".entry"@ }, j)
            &&& forall|i: int| c <= i < j ==> rest[i] != 10
        },
    ensures
        body_end(rest) == c,
{
    let entry = encode_utf8(".entry"@);
    let fun = encode_utf8(".func"@);
    reveal_strlit(".entry");
    reveal_strlit(".func");
    vstd::utf8::is_ascii_chars_encode_utf8(".entry"@);
    vstd::utf8::is_ascii_chars_encode_utf8(".func"@);
    assert forall|i: int| 0 <= i < c implies !#[trigger] token_at(rest, entry, i) && !token_at(
        rest,
        fun,
        i,
    ) by {
        assert(!alone_at(rest, ".entry"@, i) && !alone_at(rest, ".func"@, i));
        lemma_alone_is_a_token(rest, ".entry"@, i);
        lemma_alone_is_a_token(rest, ".func"@, i);
    }
    lemma_alone_is_a_token(rest, ".entry"@, j);
    lemma_alone_is_a_token(rest, ".func"@, j);
    lemma_next_token_is_least(rest, entry, 0);
    lemma_directive_start_range(rest, entry);
    let end = match directive_start(rest, entry) {
        Some(i) => i,
        None => rest.len() as int,
    };
    if let Some(e) = next_token(rest, entry, 0) {
        assert(c <= e);
        lemma_line_start_from(rest, c, e);
        lemma_line_start(rest, e);
    }
    assert(c <= end);
    let upto = rest.take(end);
    lemma_next_token_is_least(upto, fun, 0);
    lemma_directive_start_range(upto, fun);
    if let Some(f) = next_token(upto, fun, 0) {
        lemma_token_extends(rest, fun, end, f);
        if f < c {
            assert(!token_at(rest, entry, f));
        }
        assert(upto[c - 1] == rest[c - 1] || c == 0);
        lemma_line_start_from(upto, c, f);
    }
    if c < rest.len() {
        if !func {
            let e = next_token(rest, entry, 0)->0;
            assert(e <= j);
            assert(end == c);
            if let Some(f) = next_token(upto, fun, 0) {
                lemma_line_start(upto, f);
            }
        } else if end > c {
            assert(j + 5 < end) by {
                if end < rest.len() {
                    let e = next_token(rest, entry, 0)->0;
                    lemma_line_start(rest, e);
                    assert(rest[end - 1] == 10);
                    assert(rest.subrange(j, j + 5) == fun);
                    if end - 1 < j + 5 {
                        assert(rest.subrange(j, j + 5)[end - 1 - j] == fun[end - 1 - j]);
                    }
                } else if next_token(rest, entry, 0) is Some {
                    let e = next_token(rest, entry, 0)->0;
                    lemma_line_start(rest, e);
                }
            }
            assert(upto.subrange(j, j + 5) =~= rest.subrange(j, j + 5));
            assert(token_at(upto, fun, j));
            let f = next_token(upto, fun, 0)->0;
            assert(f <= j);
            assert forall|k: int| c <= k < f implies upto[k] != 10 by {
                assert(upto[k] == rest[k]);
            }
        } else {
            if let Some(f) = next_token(upto, fun, 0) {
                lemma_line_start(upto, f);
            }
        }
    }
}

// ------------------------------------------------------------ what is counted

/// A needle's occurrences are the offsets at which it stands, overlaps included,
/// each once; an empty needle has none.
pub proof fn law_occurrences_are_the_offsets(hay: Seq<u8>, needle: Seq<u8>)
    ensures
        needle.len() == 0 ==> occurrences(hay, needle) == 0,
        needle.len() > 0 ==> occurrences(hay, needle) == Set::new(
            |i: int|
                0 <= i && i + needle.len() <= hay.len() && hay.subrange(i, i + needle.len())
                    == needle,
        ).len(),
{
    let n = hay.len() as int;
    let p = match_pred(hay, needle);
    crate::count::law_a_count_is_a_sets_size(n, p);
    if needle.len() > 0 {
        assert(Set::new(|i: int| 0 <= i < n && p(i)) =~= Set::new(
            |i: int|
                0 <= i && i + needle.len() <= hay.len() && hay.subrange(i, i + needle.len())
                    == needle,
        ));
    }
}

/// A `call` behind a blank, a tab, a line's end, a brace or a semicolon, with a
/// point, a blank or a tab behind it, is one call more than the text before it
/// and the text after it hold.
pub proof fn law_a_call_adds_one(x: Seq<u8>, s: u8, t: u8, y: Seq<u8>)
    requires
        seq![' ', '\t', '\n', '{', ';'].contains(s as char),
        seq!['.', ' ', '\t'].contains(t as char),
    ensures
        ({
            let before = x.push(s);
            let after = seq![t] + y;
            let body = before + encode_utf8("call"@) + after;
            count_where(body.len() as int, call_pred(body)) == count_where(
                before.len() as int,
                call_pred(before),
            ) + 1 + count_where(after.len() as int, call_pred(after))
        }),
{
    let call = encode_utf8("call"@);
    let before = x.push(s);
    let after = seq![t] + y;
    let body = before + call + after;
    let (m, n) = (before.len() as int, after.len() as int);
    lemma_call_opens_once();
    reveal_strlit("call");
    vstd::utf8::is_ascii_chars_encode_utf8("call"@);
    assert(call[0] == 99 && call[1] == 97 && call[2] == 108 && call[3] == 108);
    lemma_separators(s, t);
    let (p, q, r) = (call_pred(body), call_pred(before), call_pred(after));
    assert forall|i: int| 0 <= i < m implies #[trigger] p(i) == q(i - 0 + 0) by {
        if i + 4 <= m {
            assert(body.subrange(i, i + 4) =~= before.subrange(i, i + 4));
            if i + 4 == m {
                assert(before.subrange(i, i + 4)[3] == s);
            }
        } else {
            if match_at(body, call, i) {
                assert(body.subrange(i, i + 4)[m - 1 - i] == s);
                assert(call[m - 1 - i] == s);
            }
        }
    }
    crate::count::lemma_count_shift(0, m, p, 0, q);
    assert(p(m)) by {
        assert(body.subrange(m, m + 4) =~= call);
        assert(body[m - 1] == s);
        assert(body[m + 4] == t);
    }
    assert forall|i: int| m + 1 <= i < m + 4 implies !#[trigger] p(i) by {
        assert(body.subrange(m, m + 4) =~= call);
        lemma_no_overlap(body, call, m, i);
    }
    lemma_count_skip(m + 1, m + 4, p);
    assert forall|i: int| m + 4 <= i < m + 4 + n implies #[trigger] p(i) == r(i - (m + 4) + 0) by {
        let k = i - (m + 4);
        if k == 0 {
            assert(body[i] == t && after[0] == t);
            if match_at(body, call, i) {
                assert(body.subrange(i, i + 4)[0] == t);
            }
            if match_at(after, call, 0) {
                assert(after.subrange(0, 4)[0] == t);
            }
        } else {
            assert(body[i - 1] == after[k - 1]);
            if k + 4 <= n {
                assert(body.subrange(i, i + 4) =~= after.subrange(k, k + 4));
            }
        }
    }
    crate::count::lemma_count_shift(m + 4, m + 4 + n, p, 0, r);
}

proof fn lemma_separators(s: u8, t: u8)
    requires
        seq![' ', '\t', '\n', '{', ';'].contains(s as char),
        seq!['.', ' ', '\t'].contains(t as char),
    ensures
        s == 32 || s == 9 || s == 10 || s == 123 || s == 59,
        t == 46 || t == 32 || t == 9,
{
}

/// A text without the word `call` has no call, and a `call` inside a longer word
/// or a directive is none: a letter, a digit, a point or `_` before it, or a
/// letter behind it.
pub proof fn law_a_call_inside_a_word_is_none(body: Seq<u8>)
    requires
        forall|i: int|
            #![trigger body[i]]
            0 <= i && i + 4 <= body.len() && body.subrange(i, i + 4) == encode_utf8("call"@) ==> (i
                > 0 && of_a_name(body[i - 1] as char)) || (i > 0 && body[i - 1] as char == '.') || (i
                + 4 < body.len() && of_a_name(body[i + 4] as char)),
    ensures
        count_where(body.len() as int, call_pred(body)) == 0,
{
    lemma_call_opens_once();
    assert forall|i: int| 0 <= i < body.len() implies !#[trigger] call_pred(body)(i) by {
        let c = body[i];
    }
    lemma_count_skip(0, body.len() as int, call_pred(body));
}

/// The width of a block is the number written behind the first `.reqntid `, read
/// to its last digit.
pub proof fn law_a_block_width_is_the_number_written(a: Seq<u8>, n: nat, z: Seq<u8>)
    requires
        n <= usize::MAX,
        z.len() > 0 ==> !('0' <= z[0] as char && z[0] as char <= '9'),
        ({
            let mark = encode_utf8(".reqntid "@);
            let body = a + mark + encode_utf8(text::decimal(n)) + z;
            forall|i: int| 0 <= i < a.len() ==> !#[trigger] match_at(body, mark, i)
        }),
    ensures
        block_width(a + encode_utf8(".reqntid "@) + encode_utf8(text::decimal(n)) + z) == Some(n),
{
    let mark = encode_utf8(".reqntid "@);
    let digits = text::decimal(n);
    let body = a + mark + encode_utf8(digits) + z;
    reveal_strlit(".reqntid ");
    vstd::utf8::is_ascii_chars_encode_utf8(".reqntid "@);
    lemma_decimal_bytes(n);
    let i = a.len() as int;
    assert(body.subrange(i, i + 9) =~= mark);
    assert(match_at(body, mark, i));
    lemma_next_match_is_least(body, mark, 0);
    let start = i + 9;
    assert forall|k: int| 0 <= k < digits.len() implies #[trigger] encode_utf8(digits)[k] == body[start
        + k] by {}
    lemma_digits_read(body, start, n);
    assert(body[start] == encode_utf8(digits)[0]);
}

/// The bytes of a decimal number are digits.
proof fn lemma_decimal_bytes(n: nat)
    ensures
        text::decimal(n).len() > 0,
        encode_utf8(text::decimal(n)).len() == text::decimal(n).len(),
        forall|k: int|
            0 <= k < text::decimal(n).len() ==> {
                &&& #[trigger] encode_utf8(text::decimal(n))[k] == text::decimal(n)[k] as u8
                &&& 48 <= encode_utf8(text::decimal(n))[k] <= 57
            },
{
    lemma_decimal_chars(n);
    let d = text::decimal(n);
    assert(vstd::utf8::is_ascii_chars(d)) by {
        assert forall|i: int| 0 <= i < d.len() implies '\0' <= #[trigger] d[i] <= '\u{7f}' by {
            assert('0' <= d[i] && d[i] <= '9');
        }
    }
    vstd::utf8::is_ascii_chars_encode_utf8(d);
}

proof fn lemma_decimal_chars(n: nat)
    ensures
        text::decimal(n).len() > 0,
        forall|k: int|
            0 <= k < text::decimal(n).len() ==> '0' <= #[trigger] text::decimal(n)[k]
                && text::decimal(n)[k] <= '9',
    decreases n,
{
    if n >= 10 {
        lemma_decimal_chars(n / 10);
    }
}

/// Reading the digits of `n` goes on with whatever follows them.
proof fn lemma_digits_read(body: Seq<u8>, start: int, n: nat)
    requires
        0 <= start,
        start + text::decimal(n).len() <= body.len(),
        forall|k: int|
            0 <= k < text::decimal(n).len() ==> #[trigger] body[start + k] == text::decimal(n)[k] as u8,
        start + text::decimal(n).len() < body.len() ==> !(48 <= body[start + text::decimal(n).len()]
            <= 57),
    ensures
        digits_from(body, start, 0) == n,
{
    lemma_digits_prefix(body, start, n);
    let end = start + text::decimal(n).len();
    assert(digits_from(body, end, n) == n);
}

proof fn lemma_digits_prefix(body: Seq<u8>, start: int, n: nat)
    requires
        0 <= start,
        start + text::decimal(n).len() <= body.len(),
        forall|k: int|
            0 <= k < text::decimal(n).len() ==> #[trigger] body[start + k] == text::decimal(n)[k] as u8,
    ensures
        digits_from(body, start, 0) == digits_from(body, start + text::decimal(n).len(), n),
    decreases n,
{
    let d = text::decimal(n);
    if n < 10 {
        assert(d[0] == text::digit_char(n));
        assert(body[start + 0] == d[0] as u8);
        assert(body[start] == 48 + n);
    } else {
        let e = text::decimal(n / 10);
        assert forall|k: int| 0 <= k < e.len() implies #[trigger] body[start + k] == e[k] as u8 by {
            assert(d[k] == e[k]);
        }
        lemma_digits_prefix(body, start, n / 10);
        let last = start + e.len();
        assert(d[e.len() as int] == text::digit_char(n % 10));
        assert(body[start + e.len()] == 48 + n % 10);
        assert((n / 10) * 10 + n % 10 == n);
    }
}

/// A kind's payload is the first of that kind, and a bundle with none of it has
/// none.
pub proof fn law_a_payload_is_the_first_of_its_kind(
    payloads: Seq<(u16, Seq<u8>)>,
    code: u16,
    i: int,
)
    requires
        0 <= i < payloads.len(),
    ensures
        payloads[i].0 == code && (forall|k: int| 0 <= k < i ==> (#[trigger] payloads[k]).0 != code)
            ==> payload_of(payloads, code) == Some(payloads[i].1),
        payload_of(payloads, code) is None ==> payloads[i].0 != code,
        (forall|k: int| 0 <= k < payloads.len() ==> (#[trigger] payloads[k]).0 != code)
            ==> payload_of(payloads, code) is None,
    decreases payloads.len(),
{
    let rest = payloads.drop_first();
    if payloads[0].0 != code {
        if rest.len() > 0 {
            assert forall|k: int| 0 <= k < rest.len() implies #[trigger] rest[k] == payloads[k + 1] by {}
            law_a_payload_is_the_first_of_its_kind(
                rest,
                code,
                if i > 0 {
                    i - 1
                } else {
                    0
                },
            );
            if i > 0 && payloads[i].0 == code && (forall|k: int|
                0 <= k < i ==> (#[trigger] payloads[k]).0 != code) {
                assert forall|k: int| 0 <= k < i - 1 implies (#[trigger] rest[k]).0 != code by {
                    assert(rest[k] == payloads[k + 1]);
                }
            }
        } else {
            reveal_with_fuel(payload_of, 2);
        }
    }
}

/// A bundle's text loads where it has no cubin beside it: the names refused are
/// those of the bundles with both, one for each and in order.
pub proof fn law_a_cubin_shadows_the_text(
    bundles: Seq<(Seq<char>, Seq<(u16, Seq<u8>)>)>,
    b: (Seq<char>, Seq<(u16, Seq<u8>)>),
)
    ensures
        ({
            let text = exists|k: int| 0 <= k < b.1.len() && (#[trigger] b.1[k]).0 == 0x100;
            let cubin = exists|k: int| 0 <= k < b.1.len() && (#[trigger] b.1[k]).0 == 0x200;
            &&& text && cubin ==> shadowed_names(bundles.push(b)) == shadowed_names(bundles).push(b.0)
            &&& !(text && cubin) ==> shadowed_names(bundles.push(b)) == shadowed_names(bundles)
            &&& !text ==> ptx_texts(bundles.push(b)) == ptx_texts(bundles)
            &&& text ==> ptx_texts(bundles.push(b)).len() == ptx_texts(bundles).len() + 1
            &&& text ==> ptx_texts(bundles.push(b)).last().0 == b.0
            &&& text ==> exists|k: int|
                0 <= k < b.1.len() && (#[trigger] b.1[k]) == (
                0x100u16,
                ptx_texts(bundles.push(b)).last().1,
            )
        }),
        shadowed_names(seq![]).len() == 0,
        ptx_texts(seq![]).len() == 0,
{
    assert(bundles.push(b).drop_last() =~= bundles);
    lemma_has_payload(b.1, 0x100);
    lemma_has_payload(b.1, 0x200);
}

proof fn lemma_has_payload(payloads: Seq<(u16, Seq<u8>)>, code: u16)
    ensures
        payload_of(payloads, code) is Some <==> exists|k: int|
            0 <= k < payloads.len() && (#[trigger] payloads[k]).0 == code,
        payload_of(payloads, code) matches Some(bytes) ==> exists|k: int|
            0 <= k < payloads.len() && (#[trigger] payloads[k]) == (code, bytes),
    decreases payloads.len(),
{
    if payloads.len() > 0 {
        let rest = payloads.drop_first();
        lemma_has_payload(rest, code);
        if payloads[0].0 == code {
            assert(payloads[0] == (code, payloads[0].1));
        } else {
            if exists|k: int| 0 <= k < payloads.len() && (#[trigger] payloads[k]).0 == code {
                let k = choose|k: int| 0 <= k < payloads.len() && (#[trigger] payloads[k]).0 == code;
                assert(rest[k - 1].0 == code);
            }
            if let Some(bytes) = payload_of(rest, code) {
                let k = choose|k: int| 0 <= k < rest.len() && (#[trigger] rest[k]) == (code, bytes);
                assert(payloads[k + 1] == (code, bytes));
            }
        }
    }
}

/// A scan lists every declared entry with a body once: those with a local depot
/// before those without, each group by name.
pub proof fn law_a_scan_lists_each_entry_once(
    out: Seq<Counts>,
    names: Seq<Seq<char>>,
    modules: Seq<(Seq<char>, Seq<u8>)>,
    i: int,
    j: int,
    k: int,
)
    requires
        is_scan(out, names, modules),
        0 <= i < j < out.len(),
        0 <= k < names.len(),
    ensures
        out[i].name@ != out[j].name@,
        out[j].depot ==> out[i].depot,
        out[i].depot == out[j].depot ==> text::lex_less(out[i].name@, out[j].name@),
        names.contains(out[i].name@),
        body_of(modules, names[k]) is Some ==> exists|m: int|
            0 <= m < out.len() && (#[trigger] out[m]).name@ == names[k],
{
    assert(scans_before(out[i], out[j]));
    if out[i].name@ == out[j].name@ {
        let n = out[i].name@;
        text::law_dictionary_order(n, n, n.len() as int);
        assert(out[i].describes(n, body_of(modules, n)->0));
        assert(out[j].describes(n, body_of(modules, n)->0));
    }
    if body_of(modules, names[k]) is Some {
        assert(listed(out, names[k]));
    }
}

/// An entry's counts are of its body: the places of each instruction's word, and
/// whether the depot's stands anywhere.
pub proof fn law_the_counts_are_of_the_body(c: Counts, name: Seq<char>, b: Seq<u8>)
    requires
        c.describes(name, b),
    ensures
        c.name@ == name,
        c.depot <==> exists|i: int| #[trigger] match_at(b, encode_utf8("__local_depot"@), i),
        c.ld_local == Set::new(|i: int| match_at(b, encode_utf8("ld.local"@), i)).len(),
        c.st_local == Set::new(|i: int| match_at(b, encode_utf8("st.local"@), i)).len(),
        c.fma == Set::new(|i: int| match_at(b, encode_utf8("fma."@), i)).len(),
        c.cvt_f16 == Set::new(|i: int| match_at(b, encode_utf8("cvt.f32.f16"@), i)).len(),
{
    reveal_strlit("__local_depot");
    lemma_a_word_is_not_empty("__local_depot"@);
    lemma_next_match_is_least(b, encode_utf8("__local_depot"@), 0);
    if exists|i: int| #[trigger] match_at(b, encode_utf8("__local_depot"@), i) {
        let i = choose|i: int| #[trigger] match_at(b, encode_utf8("__local_depot"@), i);
        assert(0 <= i);
    }
    law_occurrences_are_the_offsets(b, encode_utf8("ld.local"@));
    reveal_strlit("ld.local");
    lemma_a_word_is_not_empty("ld.local"@);
    assert(Set::new(|i: int| match_at(b, encode_utf8("ld.local"@), i)) =~= Set::new(
        |i: int|
            0 <= i && i + encode_utf8("ld.local"@).len() <= b.len() && b.subrange(
                i,
                i + encode_utf8("ld.local"@).len(),
            ) == encode_utf8("ld.local"@),
    ));
    law_occurrences_are_the_offsets(b, encode_utf8("st.local"@));
    reveal_strlit("st.local");
    lemma_a_word_is_not_empty("st.local"@);
    assert(Set::new(|i: int| match_at(b, encode_utf8("st.local"@), i)) =~= Set::new(
        |i: int|
            0 <= i && i + encode_utf8("st.local"@).len() <= b.len() && b.subrange(
                i,
                i + encode_utf8("st.local"@).len(),
            ) == encode_utf8("st.local"@),
    ));
    law_occurrences_are_the_offsets(b, encode_utf8("fma."@));
    reveal_strlit("fma.");
    lemma_a_word_is_not_empty("fma."@);
    assert(Set::new(|i: int| match_at(b, encode_utf8("fma."@), i)) =~= Set::new(
        |i: int|
            0 <= i && i + encode_utf8("fma."@).len() <= b.len() && b.subrange(
                i,
                i + encode_utf8("fma."@).len(),
            ) == encode_utf8("fma."@),
    ));
    law_occurrences_are_the_offsets(b, encode_utf8("cvt.f32.f16"@));
    reveal_strlit("cvt.f32.f16");
    lemma_a_word_is_not_empty("cvt.f32.f16"@);
    assert(Set::new(|i: int| match_at(b, encode_utf8("cvt.f32.f16"@), i)) =~= Set::new(
        |i: int|
            0 <= i && i + encode_utf8("cvt.f32.f16"@).len() <= b.len() && b.subrange(
                i,
                i + encode_utf8("cvt.f32.f16"@).len(),
            ) == encode_utf8("cvt.f32.f16"@),
    ));
}

proof fn lemma_a_word_is_not_empty(word: Seq<char>)
    requires
        word.len() > 0,
    ensures
        encode_utf8(word).len() > 0,
{
}

} // verus!
