//! The image encoder's reference set: what its manifest lists, the taps it holds
//! for an image in chain order, and the band each tap is held to. A tap of the
//! patch embedding, of block 0 or forced from the reference's own input is held
//! to a pinned band; a free-running tap after block 0 is held to a multiple of
//! the reference's distance from itself, since the network amplifies a last-bit
//! difference.
//!
//! Doubles are held by their bits.
use crate::bits::at_most;
use crate::bits::is_at_most;
use crate::bits::not_a_number;
use crate::text;
use crate::text::decimal;
use crate::text::ends_with;
use crate::text::is_float_text;
use crate::text::lex_less;
use crate::text::number;
use crate::text::opens_with;
use crate::text::split;
use vstd::prelude::*;

verus! {

/// The checkpoint revision every set must name.
pub const REVISION: &'static str = "dba1be0a40aa45a94ad051997016db3960a90277";

/// The image whose every block and block-0 op the set holds.
pub const FULL: &'static str = "grad-448";

/// Blocks of the encoder.
pub const N_BLOCKS: u64 = 32;

// ------------------------------------------------------------ images

/// One image of a set: its file and its patch grid.
#[derive(Clone, Debug)]
pub struct Img {
    pub name: String,
    pub n_vit_h: usize,
    pub n_vit_w: usize,
}

/// An image, by its characters.
pub ghost struct ImgView {
    pub name: Seq<char>,
    pub n_vit_h: nat,
    pub n_vit_w: nat,
}

impl View for Img {
    type V = ImgView;

    open spec fn view(&self) -> ImgView {
        ImgView { name: self.name@, n_vit_h: self.n_vit_h as nat, n_vit_w: self.n_vit_w as nat }
    }
}

/// A file name without its picture suffix.
pub open spec fn stem_of(name: Seq<char>) -> Seq<char> {
    if ends_with(name, ".png"@) {
        name.take(name.len() - ".png"@.len())
    } else {
        name
    }
}

impl Img {
    /// The image's name without the picture suffix.
    pub fn stem(&self) -> (r: String)
        ensures
            r@ == stem_of(self.name@),
    {
        proof {
            reveal_strlit(".png");
        }
        let cs: Vec<char> = text::chars_of(self.name.as_str());
        let suffix: Vec<char> = text::chars_of(".png");
        if text::ends(cs.as_slice(), suffix.as_slice()) {
            let n: usize = cs.len() - suffix.len();
            let head: Vec<char> = text::piece(cs.as_slice(), 0, n);
            assert(head@ =~= self.name@.take(n as int));
            text::string_of(head.as_slice())
        } else {
            text::string_of(cs.as_slice())
        }
    }
}

/// The images, by their characters.
pub open spec fn img_views(v: Seq<Img>) -> Seq<ImgView> {
    v.map_values(|i: Img| i@)
}

/// The image whose ops the set holds.
pub open spec fn is_full(i: ImgView) -> bool {
    stem_of(i.name) == FULL@
}

/// Image `x` comes before image `y`: the full-tap image first, since its
/// op-level checks name a defect before any block does, then by name.
pub open spec fn before(x: ImgView, y: ImgView) -> bool {
    (is_full(x) && !is_full(y)) || (is_full(x) == is_full(y) && lex_less(x.name, y.name))
}

/// The first place from `at` on whose image comes after `x`.
pub open spec fn place(v: Seq<ImgView>, x: ImgView, at: int) -> int
    decreases v.len() - at,
{
    if at < 0 || at >= v.len() {
        v.len() as int
    } else if before(x, v[at]) {
        at
    } else {
        place(v, x, at + 1)
    }
}

/// The images in that order, those of one name as they came.
pub open spec fn arranged(v: Seq<ImgView>) -> Seq<ImgView>
    decreases v.len(),
{
    if v.len() == 0 {
        v
    } else {
        let a = arranged(v.drop_last());
        a.insert(place(a, v.last(), 0), v.last())
    }
}

/// Whether one image comes before another.
fn precedes(x: &Img, y: &Img) -> (r: bool)
    ensures
        r == before(x@, y@),
{
    let fx: bool = text::same_str(x.stem().as_str(), FULL);
    let fy: bool = text::same_str(y.stem().as_str(), FULL);
    if fx == fy {
        text::less(
            text::chars_of(x.name.as_str()).as_slice(),
            text::chars_of(y.name.as_str()).as_slice(),
        )
    } else {
        fx
    }
}

/// A place is within the list.
proof fn lemma_place(v: Seq<ImgView>, x: ImgView, at: int)
    requires
        0 <= at <= v.len(),
    ensures
        at <= place(v, x, at) <= v.len(),
        forall|j: int| at <= j < place(v, x, at) ==> !before(x, #[trigger] v[j]),
        place(v, x, at) < v.len() ==> before(x, v[place(v, x, at)]),
    decreases v.len() - at,
{
    if at < v.len() && !before(x, v[at]) {
        lemma_place(v, x, at + 1);
    }
}

/// The images in order, the full-tap image first.
pub fn arrange(images: Vec<Img>) -> (r: Vec<Img>)
    ensures
        img_views(r@) == arranged(img_views(images@)),
{
    let ghost all = images@;
    let mut out: Vec<Img> = Vec::new();
    let mut rest: Vec<Img> = images;
    let n: usize = rest.len();
    let mut k: usize = 0;
    assert(img_views(out@) =~= arranged(img_views(all.take(0))));
    while k < n
        invariant
            n == all.len(),
            k <= n,
            rest@ =~= all.skip(k as int),
            img_views(out@) == arranged(img_views(all.take(k as int))),
        decreases n - k,
    {
        let x: Img = rest.remove(0);
        assert(x == all[k as int]);
        let ghost was = img_views(out@);
        proof {
            lemma_place(was, x@, 0);
        }
        let mut at: usize = 0;
        while at < out.len() && !precedes(&x, &out[at])
            invariant
                at <= out@.len(),
                was == img_views(out@),
                place(was, x@, 0) == place(was, x@, at as int),
            decreases out@.len() - at,
        {
            assert(was[at as int] == out@[at as int]@);
            at += 1;
        }
        proof {
            if at < out@.len() {
                assert(was[at as int] == out@[at as int]@);
            }
            assert(at == place(was, x@, 0));
        }
        out.insert(at, x);
        proof {
            let next = img_views(all.take(k + 1));
            assert(next.drop_last() =~= img_views(all.take(k as int)));
            assert(next.last() == x@);
            assert(img_views(out@) =~= was.insert(at as int, x@));
        }
        k += 1;
    }
    assert(all.take(n as int) =~= all);
    out
}

/// The order has no cycle of one or two, and passes through a third.
proof fn lemma_before(x: ImgView, y: ImgView, z: ImgView)
    ensures
        !before(x, x),
        before(x, y) ==> !before(y, x),
        before(x, y) && before(y, z) ==> before(x, z),
        !before(x, y) && !before(y, z) ==> !before(x, z),
{
    text::lemma_lex_irreflexive(x.name, 0);
    assert(x.name.take(0) =~= y.name.take(0));
    assert(y.name.take(0) =~= z.name.take(0));
    if !lex_less(x.name, y.name) && !lex_less(y.name, x.name) {
        text::lemma_lex_total(x.name, y.name, 0);
    }
    if !lex_less(y.name, z.name) && !lex_less(z.name, y.name) {
        text::lemma_lex_total(y.name, z.name, 0);
    }
    if !lex_less(x.name, z.name) && !lex_less(z.name, x.name) {
        text::lemma_lex_total(x.name, z.name, 0);
    }
    if lex_less(x.name, y.name) && lex_less(y.name, x.name) {
        text::lemma_lex_transitive(x.name, y.name, x.name, 0);
    }
    if lex_less(x.name, y.name) && lex_less(y.name, z.name) {
        text::lemma_lex_transitive(x.name, y.name, z.name, 0);
    }
    if lex_less(y.name, x.name) && lex_less(x.name, z.name) {
        text::lemma_lex_transitive(y.name, x.name, z.name, 0);
    }
    if lex_less(x.name, z.name) && lex_less(z.name, y.name) {
        text::lemma_lex_transitive(x.name, z.name, y.name, 0);
    }
}

/// Arranging loses and adds no image, and none stands behind one it comes
/// before.
pub proof fn law_images_are_arranged(v: Seq<ImgView>)
    ensures
        arranged(v).to_multiset() == v.to_multiset(),
        forall|i: int, j: int|
            0 <= i < j < arranged(v).len() ==> !before(
                #[trigger] arranged(v)[j],
                #[trigger] arranged(v)[i],
            ),
    decreases v.len(),
{
    broadcast use vstd::seq_lib::group_to_multiset_ensures;

    if v.len() > 0 {
        let a = arranged(v.drop_last());
        let x = v.last();
        law_images_are_arranged(v.drop_last());
        lemma_place(a, x, 0);
        let p = place(a, x, 0);
        let b = a.insert(p, x);
        vstd::seq_lib::to_multiset_insert(a, p, x);
        vstd::seq_lib::to_multiset_build(v.drop_last(), x);
        assert(v.drop_last().push(x) =~= v);
        assert forall|i: int, j: int| 0 <= i < j < b.len() implies !before(
            #[trigger] b[j],
            #[trigger] b[i],
        ) by {
            if j < p {
                assert(b[i] == a[i] && b[j] == a[j]);
            } else if i > p {
                assert(b[i] == a[i - 1] && b[j] == a[j - 1]);
            } else if j == p {
                assert(b[i] == a[i]);
            } else if i == p {
                // `x` comes before the one at its place, which none behind comes before.
                assert(b[j] == a[j - 1]);
                lemma_before(x, a[p], a[j - 1]);
                lemma_before(a[j - 1], a[p], x);
                if j - 1 > p {
                    assert(!before(a[j - 1], a[p]));
                }
                lemma_before(x, a[j - 1], x);
                lemma_before(a[j - 1], x, a[p]);
            } else {
                assert(b[i] == a[i] && b[j] == a[j - 1]);
            }
        }
    }
}

// ------------------------------------------------------------ the manifest

/// A file of bf16 values and its dims.
#[derive(Clone, Debug)]
pub struct BitsFile {
    pub name: String,
    pub rows: usize,
    pub cols: usize,
}

/// A file, by its characters.
pub ghost struct FileView {
    pub name: Seq<char>,
    pub rows: nat,
    pub cols: nat,
}

impl View for BitsFile {
    type V = FileView;

    open spec fn view(&self) -> FileView {
        FileView { name: self.name@, rows: self.rows as nat, cols: self.cols as nat }
    }
}

/// A tap's distance of the reference from itself, as the manifest writes it.
#[derive(Clone, Debug)]
pub struct Sensitivity {
    pub tap: String,
    pub rms_rel: String,
}

/// A distance, by its characters.
pub ghost struct SensView {
    pub tap: Seq<char>,
    pub rms_rel: Seq<char>,
}

impl View for Sensitivity {
    type V = SensView;

    open spec fn view(&self) -> SensView {
        SensView { tap: self.tap@, rms_rel: self.rms_rel@ }
    }
}

/// A set: the encoder's file, its images in order, its bf16 files and the
/// reference's distances from itself, as they came.
#[derive(Debug)]
pub struct VisionSet {
    pub mmproj: String,
    pub images: Vec<Img>,
    pub files: Vec<BitsFile>,
    pub sensitivity: Vec<Sensitivity>,
}

/// What the lines of a manifest give, before the images are arranged.
pub ghost struct Lines {
    pub mmproj: Option<Seq<char>>,
    pub images: Seq<ImgView>,
    pub files: Seq<FileView>,
    pub sensitivity: Seq<SensView>,
}

/// Why a line does not read.
#[derive(Clone, Copy, Debug, PartialEq, Eq, Structural)]
pub enum LineError {
    /// A field is missing.
    Field,
    /// A field is no number.
    Number,
}

/// Why a manifest does not read.
#[derive(Clone, Copy, Debug, PartialEq, Eq, Structural)]
pub enum SetError {
    /// It has no complete trailer.
    Incomplete,
    /// It names no checkpoint.
    NoCheckpoint,
    /// Its checkpoint is of another revision.
    Stale,
    /// It has no columns line for the distances.
    NoColumns,
    /// The distances' columns are unknown.
    Columns,
    /// This line, counted from 0, does not read.
    Line(usize, LineError),
    /// It names no encoder file.
    NoEncoder,
}

/// What one line gives.
pub ghost enum LineView {
    Mmproj(Seq<char>),
    Sensitivity(SensView),
    Image(ImgView),
    File(FileView),
    Nothing,
}

/// The dims a field writes.
pub open spec fn dims_of(s: Seq<char>) -> Option<Seq<nat>> {
    text::numbers(split(s, 'x'), usize::MAX as nat)
}

/// What a line's fields give: a file that is not of two dims is passed over.
pub open spec fn line_of(f: Seq<Seq<char>>) -> Result<LineView, LineError> {
    let max = usize::MAX as nat;
    if f[0] == "# mmproj"@ {
        if f.len() < 2 {
            Err(LineError::Field)
        } else {
            Ok(LineView::Mmproj(f[1]))
        }
    } else if f[0] == "# sensitivity"@ {
        if f.len() < 4 {
            Err(LineError::Field)
        } else if !is_float_text(f[3]) {
            Err(LineError::Number)
        } else {
            Ok(LineView::Sensitivity(SensView { tap: f[1], rms_rel: f[3] }))
        }
    } else if f[0] == "image"@ {
        if f.len() < 8 {
            Err(LineError::Field)
        } else if number(f[7], max) is None {
            Err(LineError::Number)
        } else if f.len() < 9 {
            Err(LineError::Field)
        } else if number(f[8], max) is None {
            Err(LineError::Number)
        } else {
            Ok(
                LineView::Image(
                    ImgView {
                        name: f[1],
                        n_vit_h: number(f[7], max)->0,
                        n_vit_w: number(f[8], max)->0,
                    },
                ),
            )
        }
    } else if f[0] == "file"@ {
        if f.len() < 4 {
            Err(LineError::Field)
        } else if f[3] != "bf16"@ {
            Ok(LineView::Nothing)
        } else if f.len() < 5 {
            Err(LineError::Field)
        } else {
            match dims_of(f[4]) {
                None => Err(LineError::Number),
                Some(d) => if d.len() == 2 {
                    Ok(LineView::File(FileView { name: f[1], rows: d[0], cols: d[1] }))
                } else {
                    Ok(LineView::Nothing)
                },
            }
        }
    } else {
        Ok(LineView::Nothing)
    }
}

/// The lines with one more taken in: a later encoder file replaces an earlier.
pub open spec fn with_line(v: Lines, l: LineView) -> Lines {
    match l {
        LineView::Mmproj(p) => Lines { mmproj: Some(p), ..v },
        LineView::Sensitivity(s) => Lines { sensitivity: v.sensitivity.push(s), ..v },
        LineView::Image(i) => Lines { images: v.images.push(i), ..v },
        LineView::File(f) => Lines { files: v.files.push(f), ..v },
        LineView::Nothing => v,
    }
}

/// What the lines from `at` on make of those so far.
pub open spec fn read_from(lines: Seq<Seq<char>>, at: int, v: Lines) -> Result<Lines, SetError>
    decreases lines.len() - at,
{
    if at < 0 || at >= lines.len() {
        Ok(v)
    } else {
        match line_of(split(lines[at], '\t')) {
            Err(e) => Err(SetError::Line(at as usize, e)),
            Ok(l) => read_from(lines, at + 1, with_line(v, l)),
        }
    }
}

/// The first line from `at` on that opens with a prefix.
pub open spec fn line_with(lines: Seq<Seq<char>>, prefix: Seq<char>, at: int) -> Option<int>
    decreases lines.len() - at,
{
    if at < 0 || at >= lines.len() {
        None
    } else if opens_with(lines[at], prefix) {
        Some(at)
    } else {
        line_with(lines, prefix, at + 1)
    }
}

/// `needle` stands in `s` at an index.
pub open spec fn stands_at(s: Seq<char>, needle: Seq<char>, i: int) -> bool {
    0 <= i && i + needle.len() <= s.len() && s.subrange(i, i + needle.len()) == needle
}

/// `needle` stands somewhere in `s`.
pub open spec fn holds(s: Seq<char>, needle: Seq<char>) -> bool {
    exists|i: int| stands_at(s, needle, i)
}

/// Nothing read yet.
pub open spec fn no_lines() -> Lines {
    Lines { mmproj: None, images: seq![], files: seq![], sensitivity: seq![] }
}

/// What a manifest says of its set.
pub open spec fn set_of(s: Seq<char>) -> Result<Lines, SetError> {
    let lines = text::lines(s);
    let ckpt = line_with(lines, "# checkpoint\t"@, 0);
    let columns = line_with(lines, "# sensitivity columns\t"@, 0);
    if line_with(lines, "# complete\t"@, 0) is None {
        Err(SetError::Incomplete)
    } else if ckpt is None {
        Err(SetError::NoCheckpoint)
    } else if !holds(lines[ckpt->0], REVISION@) {
        Err(SetError::Stale)
    } else if columns is None {
        Err(SetError::NoColumns)
    } else if !opens_with(
        lines[columns->0],
        "# sensitivity columns\ttap max_rel rms_rel differ\t"@,
    ) {
        Err(SetError::Columns)
    } else {
        with_encoder(read_from(lines, 0, no_lines()))
    }
}

/// What was read, where it names an encoder file.
pub open spec fn with_encoder(r: Result<Lines, SetError>) -> Result<Lines, SetError> {
    match r {
        Err(e) => Err(e),
        Ok(v) => if v.mmproj is None {
            Err(SetError::NoEncoder)
        } else {
            Ok(v)
        },
    }
}

/// The first line that opens with a prefix.
fn find_line(lines: &Vec<Vec<char>>, prefix: &str) -> (r: Option<usize>)
    ensures
        match r {
            Some(i) => i < lines@.len() && line_with(text::pieces(lines@), prefix@, 0) == Some(
                i as int,
            ),
            None => line_with(text::pieces(lines@), prefix@, 0) is None,
        },
{
    let ghost all = text::pieces(lines@);
    let p: Vec<char> = text::chars_of(prefix);
    let mut i: usize = 0;
    while i < lines.len()
        invariant
            i <= lines@.len(),
            all == text::pieces(lines@),
            p@ == prefix@,
            line_with(all, prefix@, 0) == line_with(all, prefix@, i as int),
        decreases lines@.len() - i,
    {
        assert(all[i as int] == lines@[i as int]@);
        if text::starts(lines[i].as_slice(), p.as_slice()) {
            return Some(i);
        }
        i += 1;
    }
    None
}

/// Whether a text stands somewhere in another.
fn contains(cs: &[char], needle: &str) -> (r: bool)
    ensures
        r == holds(cs@, needle@),
{
    let n: Vec<char> = text::chars_of(needle);
    let len: usize = cs.len();
    if n.len() > len {
        assert forall|i: int| !stands_at(cs@, needle@, i) by {}
        return false;
    }
    let last: usize = len - n.len();
    let mut i: usize = 0;
    while i <= last
        invariant
            len == cs@.len(),
            n@ == needle@,
            last + n@.len() == len,
            i <= last + 1,
            forall|j: int| 0 <= j < i ==> !stands_at(cs@, needle@, j),
        decreases last + 1 - i,
    {
        let at: Vec<char> = text::piece(cs, i, i + n.len());
        if text::same(at.as_slice(), n.as_slice()) {
            assert(stands_at(cs@, needle@, i as int));
            return true;
        }
        assert(!stands_at(cs@, needle@, i as int));
        if i == last {
            assert forall|j: int| !stands_at(cs@, needle@, j) by {}
            return false;
        }
        i += 1;
    }
    false
}

/// What one line gives.
enum Line {
    Mmproj(String),
    Sensitivity(Sensitivity),
    Image(Img),
    File(BitsFile),
    Nothing,
}

/// A line, by its characters.
spec fn line_view(l: Line) -> LineView {
    match l {
        Line::Mmproj(s) => LineView::Mmproj(s@),
        Line::Sensitivity(s) => LineView::Sensitivity(s@),
        Line::Image(i) => LineView::Image(i@),
        Line::File(f) => LineView::File(f@),
        Line::Nothing => LineView::Nothing,
    }
}

/// The number a field writes.
fn field_number(cs: &[char]) -> (r: Option<usize>)
    ensures
        match r {
            Some(n) => number(cs@, usize::MAX as nat) == Some(n as nat),
            None => number(cs@, usize::MAX as nat) is None,
        },
{
    match text::parse_number(cs, usize::MAX as u64) {
        Some(n) => Some(n as usize),
        None => None,
    }
}

/// A dims field: nothing where a piece is no number, and no pair where they are
/// not two.
fn parse_dims(cs: &[char]) -> (r: Option<Option<(usize, usize)>>)
    ensures
        match r {
            None => dims_of(cs@) is None,
            Some(Some(d)) => dims_of(cs@) == Some(seq![d.0 as nat, d.1 as nat]),
            Some(None) => dims_of(cs@) matches Some(d) && d.len() != 2,
        },
{
    let parts: Vec<Vec<char>> = text::split_at_each(cs, 'x');
    let ghost all = split(cs@, 'x');
    let max: Ghost<nat> = Ghost(usize::MAX as nat);
    let mut v: Vec<usize> = Vec::new();
    let mut i: usize = 0;
    proof {
        assert(all.take(0) =~= Seq::<Seq<char>>::empty());
    }
    while i < parts.len()
        invariant
            i <= parts@.len(),
            max@ == usize::MAX as nat,
            all == split(cs@, 'x'),
            text::pieces(parts@) == all,
            v@.len() == i,
            text::numbers(all.take(i as int), max@) == Some(
                v@.map_values(|x: usize| x as nat),
            ),
        decreases parts@.len() - i,
    {
        assert(all[i as int] == parts@[i as int]@);
        let ghost was = v@;
        let ghost now = all.take(i + 1);
        assert(now.drop_last() =~= all.take(i as int));
        match field_number(parts[i].as_slice()) {
            None => {
                proof {
                    assert(text::numbers(now, max@) is None);
                    lemma_numbers_none(all, max@, i + 1);
                }
                return None;
            },
            Some(n) => {
                v.push(n);
                assert(v@.map_values(|x: usize| x as nat) =~= was.map_values(
                    |x: usize| x as nat,
                ).push(n as nat));
            },
        }
        i += 1;
    }
    assert(all.take(parts@.len() as int) =~= all);
    if v.len() == 2 {
        assert(v@.map_values(|x: usize| x as nat) =~= seq![v@[0] as nat, v@[1] as nat]);
        Some(Some((v[0], v[1])))
    } else {
        Some(None)
    }
}

/// Pieces one of whose first `n` write no numbers write none.
proof fn lemma_numbers_none(parts: Seq<Seq<char>>, max: nat, n: int)
    requires
        0 <= n <= parts.len(),
        text::numbers(parts.take(n), max) is None,
    ensures
        text::numbers(parts, max) is None,
    decreases parts.len() - n,
{
    if n == parts.len() {
        assert(parts.take(n) =~= parts);
    } else {
        assert(parts.take(n + 1).drop_last() =~= parts.take(n));
        lemma_numbers_none(parts, max, n + 1);
    }
}

/// What a line gives.
fn parse_line(line: &[char]) -> (r: Result<Line, LineError>)
    ensures
        match r {
            Ok(l) => line_of(split(line@, '\t')) == Ok::<LineView, LineError>(line_view(l)),
            Err(e) => line_of(split(line@, '\t')) == Err::<LineView, LineError>(e),
        },
{
    let f: Vec<Vec<char>> = text::split_at_each(line, '\t');
    let ghost all = split(line@, '\t');
    proof {
        text::lemma_split_nonempty(line@, '\t');
        assert forall|i: int| 0 <= i < f@.len() implies all[i] == (#[trigger] f@[i])@ by {
            assert(text::pieces(f@)[i] == f@[i]@);
        }
    }
    if text::is(f[0].as_slice(), "# mmproj") {
        if f.len() < 2 {
            return Err(LineError::Field);
        }
        return Ok(Line::Mmproj(text::string_of(f[1].as_slice())));
    }
    if text::is(f[0].as_slice(), "# sensitivity") {
        if f.len() < 4 {
            return Err(LineError::Field);
        }
        if !text::float_text(f[3].as_slice()) {
            return Err(LineError::Number);
        }
        return Ok(
            Line::Sensitivity(
                Sensitivity {
                    tap: text::string_of(f[1].as_slice()),
                    rms_rel: text::string_of(f[3].as_slice()),
                },
            ),
        );
    }
    if text::is(f[0].as_slice(), "image") {
        if f.len() < 8 {
            return Err(LineError::Field);
        }
        let h: usize = match field_number(f[7].as_slice()) {
            Some(h) => h,
            None => {
                return Err(LineError::Number);
            },
        };
        if f.len() < 9 {
            return Err(LineError::Field);
        }
        let w: usize = match field_number(f[8].as_slice()) {
            Some(w) => w,
            None => {
                return Err(LineError::Number);
            },
        };
        return Ok(
            Line::Image(
                Img { name: text::string_of(f[1].as_slice()), n_vit_h: h, n_vit_w: w },
            ),
        );
    }
    if text::is(f[0].as_slice(), "file") {
        if f.len() < 4 {
            return Err(LineError::Field);
        }
        if !text::is(f[3].as_slice(), "bf16") {
            return Ok(Line::Nothing);
        }
        if f.len() < 5 {
            return Err(LineError::Field);
        }
        return match parse_dims(f[4].as_slice()) {
            None => Err(LineError::Number),
            Some(Some(d)) => Ok(
                Line::File(
                    BitsFile { name: text::string_of(f[1].as_slice()), rows: d.0, cols: d.1 },
                ),
            ),
            Some(None) => Ok(Line::Nothing),
        };
    }
    Ok(Line::Nothing)
}

/// The files, by their characters.
pub open spec fn file_views(v: Seq<BitsFile>) -> Seq<FileView> {
    v.map_values(|f: BitsFile| f@)
}

/// The distances, by their characters.
pub open spec fn sens_views(v: Seq<Sensitivity>) -> Seq<SensView> {
    v.map_values(|s: Sensitivity| s@)
}

/// An encoder file, where one is named.
pub open spec fn opt_text(s: Option<String>) -> Option<Seq<char>> {
    match s {
        Some(s) => Some(s@),
        None => None,
    }
}

/// Reads a set's manifest.
pub fn read_set(manifest: &str) -> (r: Result<VisionSet, SetError>)
    ensures
        match r {
            Ok(v) => set_of(manifest@) matches Ok(l) && l.mmproj == Some(v.mmproj@) && img_views(
                v.images@,
            ) == arranged(l.images) && file_views(v.files@) == l.files && sens_views(
                v.sensitivity@,
            ) == l.sensitivity,
            Err(e) => set_of(manifest@) == Err::<Lines, SetError>(e),
        },
{
    let lines: Vec<Vec<char>> = text::lines_of(text::chars_of(manifest).as_slice());
    let ghost all = text::lines(manifest@);
    if find_line(&lines, "# complete\t").is_none() {
        return Err(SetError::Incomplete);
    }
    match find_line(&lines, "# checkpoint\t") {
        None => {
            return Err(SetError::NoCheckpoint);
        },
        Some(i) => {
            assert(all[i as int] == lines@[i as int]@);
            if !contains(lines[i].as_slice(), REVISION) {
                return Err(SetError::Stale);
            }
        },
    }
    match find_line(&lines, "# sensitivity columns\t") {
        None => {
            return Err(SetError::NoColumns);
        },
        Some(i) => {
            assert(all[i as int] == lines@[i as int]@);
            let want: Vec<char> = text::chars_of(
                "# sensitivity columns\ttap max_rel rms_rel differ\t",
            );
            if !text::starts(lines[i].as_slice(), want.as_slice()) {
                return Err(SetError::Columns);
            }
        },
    }
    let mut mmproj: Option<String> = None;
    let mut images: Vec<Img> = Vec::new();
    let mut files: Vec<BitsFile> = Vec::new();
    let mut sensitivity: Vec<Sensitivity> = Vec::new();
    let ghost mut seen = no_lines();
    proof {
        assert(img_views(images@) =~= seen.images);
        assert(file_views(files@) =~= seen.files);
        assert(sens_views(sensitivity@) =~= seen.sensitivity);
    }
    let mut i: usize = 0;
    while i < lines.len()
        invariant
            i <= lines@.len(),
            text::pieces(lines@) == all,
            set_of(manifest@) == with_encoder(read_from(all, 0, no_lines())),
            opt_text(mmproj) == seen.mmproj,
            img_views(images@) == seen.images,
            file_views(files@) == seen.files,
            sens_views(sensitivity@) == seen.sensitivity,
            read_from(all, 0, no_lines()) == read_from(all, i as int, seen),
        decreases lines@.len() - i,
    {
        assert(all[i as int] == lines@[i as int]@);
        let line: Line = match parse_line(lines[i].as_slice()) {
            Ok(l) => l,
            Err(e) => {
                return Err(SetError::Line(i, e));
            },
        };
        proof {
            seen = with_line(seen, line_view(line));
        }
        match line {
            Line::Mmproj(s) => {
                mmproj = Some(s);
            },
            Line::Sensitivity(s) => {
                let ghost was = sensitivity@;
                sensitivity.push(s);
                assert(sens_views(sensitivity@) =~= sens_views(was).push(s@));
            },
            Line::Image(x) => {
                let ghost was = images@;
                images.push(x);
                assert(img_views(images@) =~= img_views(was).push(x@));
            },
            Line::File(f) => {
                let ghost was = files@;
                files.push(f);
                assert(file_views(files@) =~= file_views(was).push(f@));
            },
            Line::Nothing => {},
        }
        i += 1;
    }
    match mmproj {
        None => Err(SetError::NoEncoder),
        Some(mmproj) => Ok(VisionSet { mmproj, images: arrange(images), files, sensitivity }),
    }
}

// ------------------------------------------------------------ lookups

/// A file of the set has a name.
pub open spec fn has_file(files: Seq<BitsFile>, name: Seq<char>) -> bool {
    exists|i: int| 0 <= i < files.len() && (#[trigger] files[i]).name@ == name
}

/// The last distance of a tap among the first `n`.
pub open spec fn last_sensitivity(v: Seq<Sensitivity>, tap: Seq<char>, n: int) -> Option<int>
    decreases n,
{
    if n <= 0 {
        None
    } else if v[n - 1].tap@ == tap {
        Some(n - 1)
    } else {
        last_sensitivity(v, tap, n - 1)
    }
}

impl VisionSet {
    /// Whether the set holds a file.
    pub fn holds_file(&self, name: &str) -> (r: bool)
        ensures
            r == has_file(self.files@, name@),
    {
        let mut i: usize = 0;
        while i < self.files.len()
            invariant
                i <= self.files@.len(),
                forall|j: int| 0 <= j < i ==> (#[trigger] self.files@[j]).name@ != name@,
            decreases self.files@.len() - i,
        {
            if text::same_str(self.files[i].name.as_str(), name) {
                return true;
            }
            i += 1;
        }
        false
    }

    /// The index of a tap's distance, the last where several are given.
    pub fn sensitivity_of(&self, tap: &str) -> (r: Option<usize>)
        ensures
            match r {
                Some(i) => last_sensitivity(
                    self.sensitivity@,
                    tap@,
                    self.sensitivity@.len() as int,
                ) == Some(i as int) && i < self.sensitivity@.len(),
                None => last_sensitivity(
                    self.sensitivity@,
                    tap@,
                    self.sensitivity@.len() as int,
                ) is None,
            },
    {
        let mut n: usize = self.sensitivity.len();
        while n > 0
            invariant
                n <= self.sensitivity@.len(),
                last_sensitivity(self.sensitivity@, tap@, self.sensitivity@.len() as int)
                    == last_sensitivity(self.sensitivity@, tap@, n as int),
            decreases n,
        {
            n -= 1;
            if text::same_str(self.sensitivity[n].tap.as_str(), tap) {
                return Some(n);
            }
        }
        None
    }
}

// ------------------------------------------------------------ taps

/// The ops of block 0, in chain order.
pub open spec fn op(i: int) -> Seq<char> {
    if i == 0 {
        "norm1"@
    } else if i == 1 {
        "qkv"@
    } else if i == 2 {
        "qrot"@
    } else if i == 3 {
        "krot"@
    } else if i == 4 {
        "sdpa"@
    } else if i == 5 {
        "attn"@
    } else if i == 6 {
        "norm2"@
    } else if i == 7 {
        "w1"@
    } else if i == 8 {
        "act"@
    } else {
        "mlp"@
    }
}

/// The taps of the chain, in order: the embedding, the ops of block 0, the
/// blocks, the final norm and the aligner's inner rows.
pub open spec fn chain_tap(i: int) -> Seq<char> {
    if i == 0 {
        "embed"@
    } else if i <= 10 {
        "blk0."@ + op(i - 1)
    } else if i <= 42 {
        "blk"@ + decimal((i - 11) as nat)
    } else if i == 43 {
        "vit"@
    } else if i == 44 {
        "aligner.w1"@
    } else {
        "aligner.h"@
    }
}

/// A tap of the chain.
fn tap_at(i: usize) -> (r: String)
    requires
        i < 46,
    ensures
        r@ == chain_tap(i as int),
{
    let ops: [&str; 10] = [
        "norm1",
        "qkv",
        "qrot",
        "krot",
        "sdpa",
        "attn",
        "norm2",
        "w1",
        "act",
        "mlp",
    ];
    if i == 0 {
        return text::string_of(text::chars_of("embed").as_slice());
    }
    if i <= 10 {
        let mut cs: Vec<char> = text::chars_of("blk0.");
        text::push_str(&mut cs, ops[i - 1]);
        return text::string_of(cs.as_slice());
    }
    if i <= 42 {
        return block_name(i as u64 - 11);
    }
    if i == 43 {
        text::string_of(text::chars_of("vit").as_slice())
    } else if i == 44 {
        text::string_of(text::chars_of("aligner.w1").as_slice())
    } else {
        text::string_of(text::chars_of("aligner.h").as_slice())
    }
}

/// A block's tap.
pub fn block_name(b: u64) -> (r: String)
    ensures
        r@ == "blk"@ + decimal(b as nat),
{
    let mut cs: Vec<char> = text::chars_of("blk");
    text::push_decimal(&mut cs, b);
    text::string_of(cs.as_slice())
}

/// The file of an image's tap.
pub open spec fn tap_file_of(stem: Seq<char>, tap: Seq<char>) -> Seq<char> {
    stem + "."@ + tap + ".bf16"@
}

/// The file of an image's tap.
pub fn tap_file(stem: &str, tap: &str) -> (r: String)
    ensures
        r@ == tap_file_of(stem@, tap@),
{
    let mut cs: Vec<char> = text::chars_of(stem);
    text::push_str(&mut cs, ".");
    text::push_str(&mut cs, tap);
    text::push_str(&mut cs, ".bf16");
    text::string_of(cs.as_slice())
}

/// The first `n` taps of the chain that the set holds for an image.
pub open spec fn held_taps(files: Seq<BitsFile>, stem: Seq<char>, n: int) -> Seq<Seq<char>>
    decreases n,
{
    if n <= 0 {
        seq![]
    } else if has_file(files, tap_file_of(stem, chain_tap(n - 1))) {
        held_taps(files, stem, n - 1).push(chain_tap(n - 1))
    } else {
        held_taps(files, stem, n - 1)
    }
}

/// The taps the set holds for an image, in chain order.
pub fn oracle_taps(set: &VisionSet, stem: &str) -> (r: Vec<String>)
    ensures
        text::strings(r@) == held_taps(set.files@, stem@, 46),
{
    let mut out: Vec<String> = Vec::new();
    assert(text::strings(out@) =~= held_taps(set.files@, stem@, 0));
    let mut i: usize = 0;
    while i < 46
        invariant
            i <= 46,
            text::strings(out@) == held_taps(set.files@, stem@, i as int),
        decreases 46 - i,
    {
        let t: String = tap_at(i);
        let ghost was = out@;
        if set.holds_file(tap_file(stem, t.as_str()).as_str()) {
            out.push(t);
            assert(text::strings(out@) =~= text::strings(was).push(t@));
        }
        i += 1;
    }
    out
}

/// One block the set holds both the input and the output of.
#[derive(Clone, Debug)]
pub struct Forced {
    pub block: u64,
    pub input: String,
    pub output: String,
}

/// A forced block, by its characters.
pub ghost struct ForcedView {
    pub block: nat,
    pub input: Seq<char>,
    pub output: Seq<char>,
}

/// The forced blocks, by their characters.
pub open spec fn forced_views(v: Seq<Forced>) -> Seq<ForcedView> {
    v.map_values(
        |f: Forced| ForcedView { block: f.block as nat, input: f.input@, output: f.output@ },
    )
}

/// The tap a block reads.
pub open spec fn input_tap(b: nat) -> Seq<char> {
    if b == 0 {
        "embed"@
    } else {
        "blk"@ + decimal((b - 1) as nat)
    }
}

/// The first `n` blocks that the set holds the input and the output of.
pub open spec fn forced_of(files: Seq<BitsFile>, stem: Seq<char>, n: int) -> Seq<ForcedView>
    decreases n,
{
    if n <= 0 {
        seq![]
    } else {
        let b = (n - 1) as nat;
        let input = tap_file_of(stem, input_tap(b));
        let output = tap_file_of(stem, "blk"@ + decimal(b));
        if has_file(files, input) && has_file(files, output) {
            forced_of(files, stem, n - 1).push(ForcedView { block: b, input, output })
        } else {
            forced_of(files, stem, n - 1)
        }
    }
}

/// The blocks run alone from the reference's own input: those the set holds both
/// files of.
pub fn forced_blocks(set: &VisionSet, stem: &str, n_layer: u64) -> (r: Vec<Forced>)
    ensures
        forced_views(r@) == forced_of(set.files@, stem@, n_layer as int),
{
    let mut out: Vec<Forced> = Vec::new();
    assert(forced_views(out@) =~= forced_of(set.files@, stem@, 0));
    let mut b: u64 = 0;
    while b < n_layer
        invariant
            b <= n_layer,
            forced_views(out@) == forced_of(set.files@, stem@, b as int),
        decreases n_layer - b,
    {
        let from: String = if b == 0 {
            text::string_of(text::chars_of("embed").as_slice())
        } else {
            block_name(b - 1)
        };
        let input: String = tap_file(stem, from.as_str());
        let output: String = tap_file(stem, block_name(b).as_str());
        let ghost was = out@;
        if set.holds_file(input.as_str()) && set.holds_file(output.as_str()) {
            let ghost view = ForcedView { block: b as nat, input: input@, output: output@ };
            out.push(Forced { block: b, input, output });
            assert(forced_views(out@) =~= forced_views(was).push(view));
        }
        b += 1;
    }
    out
}

/// The taps an encode of an image collects: those the set holds, and for the
/// full-tap image what its host rules read besides.
pub fn wanted_taps(set: &VisionSet, stem: &str, n_layer: u64) -> (r: Vec<String>)
    requires
        0 < n_layer,
    ensures
        text::strings(r@) == held_taps(set.files@, stem@, 46) + (if stem@ == FULL@ {
            seq!["blk0.resid1"@, "aligner.x"@, "blk"@ + decimal((n_layer - 1) as nat)]
        } else {
            seq![]
        }),
{
    let mut out: Vec<String> = oracle_taps(set, stem);
    let ghost was = out@;
    if text::same_str(stem, FULL) {
        out.push(text::string_of(text::chars_of("blk0.resid1").as_slice()));
        out.push(text::string_of(text::chars_of("aligner.x").as_slice()));
        out.push(block_name(n_layer - 1));
        assert(text::strings(out@) =~= text::strings(was) + seq![
            "blk0.resid1"@,
            "aligner.x"@,
            "blk"@ + decimal((n_layer - 1) as nat),
        ]);
    } else {
        assert(text::strings(was) + Seq::<Seq<char>>::empty() =~= text::strings(was));
    }
    out
}

// ------------------------------------------------------------ rulers

/// The distance a free-running tap is measured against: its own for the blocks
/// after block 0, the final norm and the aligner, and the aligner's for its
/// inner taps, which the set does not list. None for the taps held by a pin.
pub open spec fn ruler_of(tap: Seq<char>) -> Option<Seq<char>> {
    if tap == "vit"@ || tap == "aligner"@ {
        Some(tap)
    } else if tap == "aligner.w1"@ || tap == "aligner.h"@ {
        Some("aligner"@)
    } else if opens_with(tap, "blk"@) && (number(tap.skip("blk"@.len() as int), usize::MAX as nat)
        matches Some(b) && b >= 1) {
        Some(tap)
    } else {
        None
    }
}

/// The distance a free-running tap is measured against, if it is not held by a
/// pin.
pub fn ruler(tap: &str) -> (r: Option<&str>)
    ensures
        match r {
            Some(s) => ruler_of(tap@) == Some(s@),
            None => ruler_of(tap@) is None,
        },
{
    if text::same_str(tap, "vit") || text::same_str(tap, "aligner") {
        return Some(tap);
    }
    if text::same_str(tap, "aligner.w1") || text::same_str(tap, "aligner.h") {
        return Some("aligner");
    }
    proof {
        reveal_strlit("blk");
    }
    let cs: Vec<char> = text::chars_of(tap);
    let prefix: Vec<char> = text::chars_of("blk");
    if !text::starts(cs.as_slice(), prefix.as_slice()) {
        return None;
    }
    let n: usize = cs.len();
    let rest: Vec<char> = text::piece(cs.as_slice(), prefix.len(), n);
    assert(rest@ =~= tap@.skip("blk"@.len() as int));
    match field_number(rest.as_slice()) {
        Some(b) => if b >= 1 {
            Some(tap)
        } else {
            None
        },
        None => None,
    }
}

// ------------------------------------------------------------ pins

/// One tap's band: its largest and its rms distance, each relative to the
/// reference's, and the fraction of values that differ.
#[derive(Clone, Copy, Debug)]
pub struct Pin {
    pub tap: &'static str,
    pub max_rel: u64,
    pub rms_rel: u64,
    pub differ: u64,
}

/// A band, by its characters.
pub ghost struct PinView {
    pub tap: Seq<char>,
    pub max_rel: u64,
    pub rms_rel: u64,
    pub differ: u64,
}

impl View for Pin {
    type V = PinView;

    open spec fn view(&self) -> PinView {
        PinView {
            tap: self.tap@,
            max_rel: self.max_rel,
            rms_rel: self.rms_rel,
            differ: self.differ,
        }
    }
}

/// Pinned taps.
pub const N_PINS: usize = 46;

/// The bands, each the widest over the set's images.
pub open spec fn pin(i: int) -> PinView {
    if i == 0 {
        PinView {
            tap: "embed"@,
            max_rel: 0x3f6e_646f_1561_9115,
            rms_rel: 0x3ef9_2a73_7110_e454,
            differ: 0x3f24_f8b5_88e3_68f1,
        }
    } else if i == 1 {
        PinView {
            tap: "blk0.norm1"@,
            max_rel: 0x3f21_d367_1ac1_4c66,
            rms_rel: 0x3ee1_1221_14cd_9778,
            differ: 0x3f23_a92a_3055_3261,
        }
    } else if i == 2 {
        PinView {
            tap: "blk0.qkv"@,
            max_rel: 0x3f62_599e_d7c6_fbd2,
            rms_rel: 0x3ef8_032c_046a_c8cc,
            differ: 0x3f4a_36e2_eb1c_432d,
        }
    } else if i == 3 {
        PinView {
            tap: "blk0.qrot"@,
            max_rel: 0x3f60_385c_67df_e32a,
            rms_rel: 0x3f02_315a_ebde_e0cc,
            differ: 0x3f2e_2584_f4c6_e6da,
        }
    } else if i == 4 {
        PinView {
            tap: "blk0.krot"@,
            max_rel: 0x3f61_72ef_0ae5_3650,
            rms_rel: 0x3ef6_a634_b28f_33e5,
            differ: 0x3f1c_d5f9_9c38_b04b,
        }
    } else if i == 5 {
        PinView {
            tap: "blk0.sdpa"@,
            max_rel: 0x3f65_df65_55c5_2e73,
            rms_rel: 0x3f22_be48_a58b_3f64,
            differ: 0x3f70_2363_b256_ffc1,
        }
    } else if i == 6 {
        PinView {
            tap: "blk0.attn"@,
            max_rel: 0x3f72_b7fe_08ae_fb2b,
            rms_rel: 0x3f26_8b5c_bff4_7736,
            differ: 0x3f98_d25e_dd05_2935,
        }
    } else if i == 7 {
        PinView {
            tap: "blk0.norm2"@,
            max_rel: 0x3f59_652b_d3c3_6113,
            rms_rel: 0x3f30_0e6a_fcce_1c58,
            differ: 0x3f83_165d_3996_fa83,
        }
    } else if i == 8 {
        PinView {
            tap: "blk0.w1"@,
            max_rel: 0x3f75_95fe_da66_1284,
            rms_rel: 0x3f41_d367_1ac1_4c66,
            differ: 0x3fb3_c0c1_fc8f_3238,
        }
    } else if i == 9 {
        PinView {
            tap: "blk0.act"@,
            max_rel: 0x3f6d_53cd_dd6e_04c0,
            rms_rel: 0x3f42_05bc_01a3_6e2f,
            differ: 0x3fc0_88f8_61a6_0d45,
        }
    } else if i == 10 {
        PinView {
            tap: "blk0.mlp"@,
            max_rel: 0x3f76_e58a_32f4_4913,
            rms_rel: 0x3f4c_79b3_4a44_c7b0,
            differ: 0x3fc0_2752_5460_aa65,
        }
    } else if i == 11 {
        PinView {
            tap: "blk0"@,
            max_rel: 0x3f86_f006_8db8_bac7,
            rms_rel: 0x3f63_be22_e5de_15ca,
            differ: 0x3fcb_4538_ef34_d6a1,
        }
    } else if i == 12 {
        PinView {
            tap: "forced.blk0"@,
            max_rel: 0x3f86_f006_8db8_bac7,
            rms_rel: 0x3f63_a92a_3055_3261,
            differ: 0x3fca_5311_1f0c_34c2,
        }
    } else if i == 13 {
        PinView {
            tap: "forced.blk1"@,
            max_rel: 0x3f7f_0c34_c1a8_ac5c,
            rms_rel: 0x3f5c_2e33_eff1_9503,
            differ: 0x3fc4_d25e_dd05_2935,
        }
    } else if i == 14 {
        PinView {
            tap: "forced.blk2"@,
            max_rel: 0x3f71_72ef_0ae5_3650,
            rms_rel: 0x3f4d_6cf8_50df_15a5,
            differ: 0x3fb6_d916_872b_020c,
        }
    } else if i == 15 {
        PinView {
            tap: "forced.blk3"@,
            max_rel: 0x3f72_4f22_7d02_8a1e,
            rms_rel: 0x3f4d_3aa3_69fc_f3dc,
            differ: 0x3fb5_0fa5_8f71_21ab,
        }
    } else if i == 16 {
        PinView {
            tap: "forced.blk4"@,
            max_rel: 0x3f7c_432c_a57a_786c,
            rms_rel: 0x3f51_3404_ea4a_8c15,
            differ: 0x3fbb_6113_404e_a4a9,
        }
    } else if i == 17 {
        PinView {
            tap: "forced.blk5"@,
            max_rel: 0x3f7c_0ebe_dfa4_3fe6,
            rms_rel: 0x3f50_16ce_789e_774f,
            differ: 0x3fb8_2be8_bc16_9c24,
        }
    } else if i == 18 {
        PinView {
            tap: "forced.blk6"@,
            max_rel: 0x3f79_a415_f45e_0b4e,
            rms_rel: 0x3f51_3404_ea4a_8c15,
            differ: 0x3fba_3d70_a3d7_0a3d,
        }
    } else if i == 19 {
        PinView {
            tap: "forced.blk7"@,
            max_rel: 0x3f7b_280f_12c2_7a63,
            rms_rel: 0x3f52_05bc_01a3_6e2f,
            differ: 0x3fbb_6f7e_3d1c_c101,
        }
    } else if i == 20 {
        PinView {
            tap: "forced.blk8"@,
            max_rel: 0x3f79_5033_1e3a_7daa,
            rms_rel: 0x3f53_d31b_9b66_f933,
            differ: 0x3fbd_fb93_89b5_2008,
        }
    } else if i == 21 {
        PinView {
            tap: "forced.blk9"@,
            max_rel: 0x3f68_3f91_e646_f156,
            rms_rel: 0x3f54_a4d2_b2bf_db4d,
            differ: 0x3fc0_5729_b280_f12c,
        }
    } else if i == 22 {
        PinView {
            tap: "forced.blk10"@,
            max_rel: 0x3f6c_432c_a57a_786c,
            rms_rel: 0x3f59_652b_d3c3_6113,
            differ: 0x3fc5_c821_6c61_522a,
        }
    } else if i == 23 {
        PinView {
            tap: "forced.blk11"@,
            max_rel: 0x3f64_8fd9_fd36_f7e4,
            rms_rel: 0x3f57_97cc_39ff_d60f,
            differ: 0x3fc1_c582_55b0_35bd,
        }
    } else if i == 24 {
        PinView {
            tap: "forced.blk12"@,
            max_rel: 0x3f51_5df6_555c_52e7,
            rms_rel: 0x3f3f_85d7_44f5_d356,
            differ: 0x3fc2_edbb_59dd_c1e8,
        }
    } else if i == 25 {
        PinView {
            tap: "forced.blk13"@,
            max_rel: 0x3f01_4d2f_5dbb_9cfa,
            rms_rel: 0x3f2d_3aa3_69fc_f3dc,
            differ: 0x3fc2_8438_0885_09c0,
        }
    } else if i == 26 {
        PinView {
            tap: "forced.blk14"@,
            max_rel: 0x3f00_d463_9a03_4be5,
            rms_rel: 0x3f2a_1554_fbda_d752,
            differ: 0x3fbf_e3d1_cc10_0e6b,
        }
    } else if i == 27 {
        PinView {
            tap: "forced.blk15"@,
            max_rel: 0x3f10_cdad_9d5c_9cb9,
            rms_rel: 0x3f28_e757_928e_0c9e,
            differ: 0x3fbc_855d_a272_862f,
        }
    } else if i == 28 {
        PinView {
            tap: "forced.blk16"@,
            max_rel: 0x3f00_d463_9a03_4be5,
            rms_rel: 0x3f28_3f91_e646_f156,
            differ: 0x3fb9_d5e4_a383_2767,
        }
    } else if i == 29 {
        PinView {
            tap: "forced.blk17"@,
            max_rel: 0x3f00_d463_9a03_4be5,
            rms_rel: 0x3f27_1194_7cfa_26a2,
            differ: 0x3fb7_38c5_436b_8f9b,
        }
    } else if i == 30 {
        PinView {
            tap: "forced.blk18"@,
            max_rel: 0x3ef0_e1cf_9350_aa3c,
            rms_rel: 0x3f26_0525_02ee_c7c9,
            differ: 0x3fb6_b5b2_d4d4_024b,
        }
    } else if i == 31 {
        PinView {
            tap: "forced.blk19"@,
            max_rel: 0x3f00_d463_9a03_4be5,
            rms_rel: 0x3f25_5d5f_56a7_ac82,
            differ: 0x3fb4_b146_5e89_2253,
        }
    } else if i == 32 {
        PinView {
            tap: "forced.blk20"@,
            max_rel: 0x3f00_d463_9a03_4be5,
            rms_rel: 0x3f27_763e_4abe_6a33,
            differ: 0x3fb6_a359_35fc_3b4f,
        }
    } else if i == 33 {
        PinView {
            tap: "forced.blk21"@,
            max_rel: 0x3f00_d463_9a03_4be5,
            rms_rel: 0x3f26_4840_e171_9f80,
            differ: 0x3fb5_6c0d_6f54_4bb2,
        }
    } else if i == 34 {
        PinView {
            tap: "forced.blk22"@,
            max_rel: 0x3f00_d463_9a03_4be5,
            rms_rel: 0x3f28_c5c9_a34c_a0c3,
            differ: 0x3fb9_719f_7f8c_a81a,
        }
    } else if i == 35 {
        PinView {
            tap: "forced.blk23"@,
            max_rel: 0x3f00_b98b_a768_8f36,
            rms_rel: 0x3f29_4c01_6052_502f,
            differ: 0x3fb9_0e02_2142_6fe7,
        }
    } else if i == 36 {
        PinView {
            tap: "forced.blk24"@,
            max_rel: 0x3f00_ac1f_ae1b_30de,
            rms_rel: 0x3f28_a43b_b40b_34e7,
            differ: 0x3fb5_e54b_48d3_ae68,
        }
    } else if i == 37 {
        PinView {
            tap: "forced.blk25"@,
            max_rel: 0x3f00_ac1f_ae1b_30de,
            rms_rel: 0x3f2a_36e2_eb1c_432d,
            differ: 0x3fb7_4bc6_a7ef_9db2,
        }
    } else if i == 38 {
        PinView {
            tap: "forced.blk26"@,
            max_rel: 0x3f00_9eb3_b4cd_d286,
            rms_rel: 0x3f2f_5382_5e13_b18e,
            differ: 0x3fbb_c89f_40a2_877f,
        }
    } else if i == 39 {
        PinView {
            tap: "forced.blk27"@,
            max_rel: 0x3f00_9eb3_b4cd_d286,
            rms_rel: 0x3f2f_7510_4d55_1d69,
            differ: 0x3fb9_80b2_4207_0b8d,
        }
    } else if i == 40 {
        PinView {
            tap: "forced.blk28"@,
            max_rel: 0x3f00_9eb3_b4cd_d286,
            rms_rel: 0x3f31_6ebd_4cfd_08d5,
            differ: 0x3fb8_c88a_47ec_fe9b,
        }
    } else if i == 41 {
        PinView {
            tap: "forced.blk29"@,
            max_rel: 0x3f00_9eb3_b4cd_d286,
            rms_rel: 0x3f31_b1d9_2b7f_e08b,
            differ: 0x3fb3_f67f_4dbd_f8f4,
        }
    } else if i == 42 {
        PinView {
            tap: "forced.blk30"@,
            max_rel: 0x3f00_9eb3_b4cd_d286,
            rms_rel: 0x3f32_1682_f944_241c,
            differ: 0x3fac_5d63_8865_94af,
        }
    } else if i == 43 {
        PinView {
            tap: "forced.blk31"@,
            max_rel: 0x3f65_f45e_0b4e_11dc,
            rms_rel: 0x3f3a_79fe_c99f_1ae3,
            differ: 0x3fb2_1c04_4284_dfce,
        }
    } else if i == 44 {
        PinView {
            tap: "forced.vit"@,
            max_rel: 0x3f51_b1d9_2b7f_e08b,
            rms_rel: 0x3ef5_b49d_2b1e_91bb,
            differ: 0x3ef4_f8b5_88e3_68f1,
        }
    } else {
        PinView {
            tap: "forced.aligner"@,
            max_rel: 0x3f75_ca6c_a03c_4b0a,
            rms_rel: 0x3f6a_36e2_eb1c_432d,
            differ: 0x3fdf_5087_0110_a138,
        }
    }
}

/// The band at an index.
fn pin_at(i: usize) -> (r: Pin)
    requires
        i < N_PINS,
    ensures
        r@ == pin(i as int),
{
    match i {
        // 0.00371, 2.4e-05, 0.00016
        0 => Pin {
            tap: "embed",
            max_rel: 0x3f6e_646f_1561_9115,
            rms_rel: 0x3ef9_2a73_7110_e454,
            differ: 0x3f24_f8b5_88e3_68f1,
        },
        // 0.000136, 8.14e-06, 0.00015
        1 => Pin {
            tap: "blk0.norm1",
            max_rel: 0x3f21_d367_1ac1_4c66,
            rms_rel: 0x3ee1_1221_14cd_9778,
            differ: 0x3f23_a92a_3055_3261,
        },
        // 0.00224, 2.29e-05, 0.0008
        2 => Pin {
            tap: "blk0.qkv",
            max_rel: 0x3f62_599e_d7c6_fbd2,
            rms_rel: 0x3ef8_032c_046a_c8cc,
            differ: 0x3f4a_36e2_eb1c_432d,
        },
        // 0.00198, 3.47e-05, 0.00023
        3 => Pin {
            tap: "blk0.qrot",
            max_rel: 0x3f60_385c_67df_e32a,
            rms_rel: 0x3f02_315a_ebde_e0cc,
            differ: 0x3f2e_2584_f4c6_e6da,
        },
        // 0.00213, 2.16e-05, 0.00011
        4 => Pin {
            tap: "blk0.krot",
            max_rel: 0x3f61_72ef_0ae5_3650,
            rms_rel: 0x3ef6_a634_b28f_33e5,
            differ: 0x3f1c_d5f9_9c38_b04b,
        },
        // 0.00267, 0.000143, 0.00394
        5 => Pin {
            tap: "blk0.sdpa",
            max_rel: 0x3f65_df65_55c5_2e73,
            rms_rel: 0x3f22_be48_a58b_3f64,
            differ: 0x3f70_2363_b256_ffc1,
        },
        // 0.00457, 0.000172, 0.02424
        6 => Pin {
            tap: "blk0.attn",
            max_rel: 0x3f72_b7fe_08ae_fb2b,
            rms_rel: 0x3f26_8b5c_bff4_7736,
            differ: 0x3f98_d25e_dd05_2935,
        },
        // 0.00155, 0.000245, 0.00932
        7 => Pin {
            tap: "blk0.norm2",
            max_rel: 0x3f59_652b_d3c3_6113,
            rms_rel: 0x3f30_0e6a_fcce_1c58,
            differ: 0x3f83_165d_3996_fa83,
        },
        // 0.00527, 0.000544, 0.07716
        8 => Pin {
            tap: "blk0.w1",
            max_rel: 0x3f75_95fe_da66_1284,
            rms_rel: 0x3f41_d367_1ac1_4c66,
            differ: 0x3fb3_c0c1_fc8f_3238,
        },
        // 0.00358, 0.00055, 0.12918
        9 => Pin {
            tap: "blk0.act",
            max_rel: 0x3f6d_53cd_dd6e_04c0,
            rms_rel: 0x3f42_05bc_01a3_6e2f,
            differ: 0x3fc0_88f8_61a6_0d45,
        },
        // 0.00559, 0.000869, 0.1262
        10 => Pin {
            tap: "blk0.mlp",
            max_rel: 0x3f76_e58a_32f4_4913,
            rms_rel: 0x3f4c_79b3_4a44_c7b0,
            differ: 0x3fc0_2752_5460_aa65,
        },
        // 0.0112, 0.00241, 0.21305
        11 => Pin {
            tap: "blk0",
            max_rel: 0x3f86_f006_8db8_bac7,
            rms_rel: 0x3f63_be22_e5de_15ca,
            differ: 0x3fcb_4538_ef34_d6a1,
        },
        // 0.0112, 0.0024, 0.20566
        12 => Pin {
            tap: "forced.blk0",
            max_rel: 0x3f86_f006_8db8_bac7,
            rms_rel: 0x3f63_a92a_3055_3261,
            differ: 0x3fca_5311_1f0c_34c2,
        },
        // 0.00758, 0.00172, 0.16267
        13 => Pin {
            tap: "forced.blk1",
            max_rel: 0x3f7f_0c34_c1a8_ac5c,
            rms_rel: 0x3f5c_2e33_eff1_9503,
            differ: 0x3fc4_d25e_dd05_2935,
        },
        // 0.00426, 0.000898, 0.08925
        14 => Pin {
            tap: "forced.blk2",
            max_rel: 0x3f71_72ef_0ae5_3650,
            rms_rel: 0x3f4d_6cf8_50df_15a5,
            differ: 0x3fb6_d916_872b_020c,
        },
        // 0.00447, 0.000892, 0.08227
        15 => Pin {
            tap: "forced.blk3",
            max_rel: 0x3f72_4f22_7d02_8a1e,
            rms_rel: 0x3f4d_3aa3_69fc_f3dc,
            differ: 0x3fb5_0fa5_8f71_21ab,
        },
        // 0.0069, 0.00105, 0.10695
        16 => Pin {
            tap: "forced.blk4",
            max_rel: 0x3f7c_432c_a57a_786c,
            rms_rel: 0x3f51_3404_ea4a_8c15,
            differ: 0x3fbb_6113_404e_a4a9,
        },
        // 0.00685, 0.000982, 0.09442
        17 => Pin {
            tap: "forced.blk5",
            max_rel: 0x3f7c_0ebe_dfa4_3fe6,
            rms_rel: 0x3f50_16ce_789e_774f,
            differ: 0x3fb8_2be8_bc16_9c24,
        },
        // 0.00626, 0.00105, 0.1025
        18 => Pin {
            tap: "forced.blk6",
            max_rel: 0x3f79_a415_f45e_0b4e,
            rms_rel: 0x3f51_3404_ea4a_8c15,
            differ: 0x3fba_3d70_a3d7_0a3d,
        },
        // 0.00663, 0.0011, 0.10717
        19 => Pin {
            tap: "forced.blk7",
            max_rel: 0x3f7b_280f_12c2_7a63,
            rms_rel: 0x3f52_05bc_01a3_6e2f,
            differ: 0x3fbb_6f7e_3d1c_c101,
        },
        // 0.00618, 0.00121, 0.11712
        20 => Pin {
            tap: "forced.blk8",
            max_rel: 0x3f79_5033_1e3a_7daa,
            rms_rel: 0x3f53_d31b_9b66_f933,
            differ: 0x3fbd_fb93_89b5_2008,
        },
        // 0.00296, 0.00126, 0.12766
        21 => Pin {
            tap: "forced.blk9",
            max_rel: 0x3f68_3f91_e646_f156,
            rms_rel: 0x3f54_a4d2_b2bf_db4d,
            differ: 0x3fc0_5729_b280_f12c,
        },
        // 0.00345, 0.00155, 0.17017
        22 => Pin {
            tap: "forced.blk10",
            max_rel: 0x3f6c_432c_a57a_786c,
            rms_rel: 0x3f59_652b_d3c3_6113,
            differ: 0x3fc5_c821_6c61_522a,
        },
        // 0.00251, 0.00144, 0.13884
        23 => Pin {
            tap: "forced.blk11",
            max_rel: 0x3f64_8fd9_fd36_f7e4,
            rms_rel: 0x3f57_97cc_39ff_d60f,
            differ: 0x3fc1_c582_55b0_35bd,
        },
        // 0.00106, 0.000481, 0.14788
        24 => Pin {
            tap: "forced.blk12",
            max_rel: 0x3f51_5df6_555c_52e7,
            rms_rel: 0x3f3f_85d7_44f5_d356,
            differ: 0x3fc2_edbb_59dd_c1e8,
        },
        // 3.3e-05, 0.000223, 0.14466
        25 => Pin {
            tap: "forced.blk13",
            max_rel: 0x3f01_4d2f_5dbb_9cfa,
            rms_rel: 0x3f2d_3aa3_69fc_f3dc,
            differ: 0x3fc2_8438_0885_09c0,
        },
        // 3.21e-05, 0.000199, 0.12457
        26 => Pin {
            tap: "forced.blk14",
            max_rel: 0x3f00_d463_9a03_4be5,
            rms_rel: 0x3f2a_1554_fbda_d752,
            differ: 0x3fbf_e3d1_cc10_0e6b,
        },
        // 6.41e-05, 0.00019, 0.11141
        27 => Pin {
            tap: "forced.blk15",
            max_rel: 0x3f10_cdad_9d5c_9cb9,
            rms_rel: 0x3f28_e757_928e_0c9e,
            differ: 0x3fbc_855d_a272_862f,
        },
        // 3.21e-05, 0.000185, 0.10092
        28 => Pin {
            tap: "forced.blk16",
            max_rel: 0x3f00_d463_9a03_4be5,
            rms_rel: 0x3f28_3f91_e646_f156,
            differ: 0x3fb9_d5e4_a383_2767,
        },
        // 3.21e-05, 0.000176, 0.09071
        29 => Pin {
            tap: "forced.blk17",
            max_rel: 0x3f00_d463_9a03_4be5,
            rms_rel: 0x3f27_1194_7cfa_26a2,
            differ: 0x3fb7_38c5_436b_8f9b,
        },
        // 1.61e-05, 0.000168, 0.08871
        30 => Pin {
            tap: "forced.blk18",
            max_rel: 0x3ef0_e1cf_9350_aa3c,
            rms_rel: 0x3f26_0525_02ee_c7c9,
            differ: 0x3fb6_b5b2_d4d4_024b,
        },
        // 3.21e-05, 0.000163, 0.08083
        31 => Pin {
            tap: "forced.blk19",
            max_rel: 0x3f00_d463_9a03_4be5,
            rms_rel: 0x3f25_5d5f_56a7_ac82,
            differ: 0x3fb4_b146_5e89_2253,
        },
        // 3.21e-05, 0.000179, 0.08843
        32 => Pin {
            tap: "forced.blk20",
            max_rel: 0x3f00_d463_9a03_4be5,
            rms_rel: 0x3f27_763e_4abe_6a33,
            differ: 0x3fb6_a359_35fc_3b4f,
        },
        // 3.21e-05, 0.00017, 0.08368
        33 => Pin {
            tap: "forced.blk21",
            max_rel: 0x3f00_d463_9a03_4be5,
            rms_rel: 0x3f26_4840_e171_9f80,
            differ: 0x3fb5_6c0d_6f54_4bb2,
        },
        // 3.21e-05, 0.000189, 0.09939
        34 => Pin {
            tap: "forced.blk22",
            max_rel: 0x3f00_d463_9a03_4be5,
            rms_rel: 0x3f28_c5c9_a34c_a0c3,
            differ: 0x3fb9_719f_7f8c_a81a,
        },
        // 3.19e-05, 0.000193, 0.09787
        35 => Pin {
            tap: "forced.blk23",
            max_rel: 0x3f00_b98b_a768_8f36,
            rms_rel: 0x3f29_4c01_6052_502f,
            differ: 0x3fb9_0e02_2142_6fe7,
        },
        // 3.18e-05, 0.000188, 0.08553
        36 => Pin {
            tap: "forced.blk24",
            max_rel: 0x3f00_ac1f_ae1b_30de,
            rms_rel: 0x3f28_a43b_b40b_34e7,
            differ: 0x3fb5_e54b_48d3_ae68,
        },
        // 3.18e-05, 0.0002, 0.091
        37 => Pin {
            tap: "forced.blk25",
            max_rel: 0x3f00_ac1f_ae1b_30de,
            rms_rel: 0x3f2a_36e2_eb1c_432d,
            differ: 0x3fb7_4bc6_a7ef_9db2,
        },
        // 3.17e-05, 0.000239, 0.10853
        38 => Pin {
            tap: "forced.blk26",
            max_rel: 0x3f00_9eb3_b4cd_d286,
            rms_rel: 0x3f2f_5382_5e13_b18e,
            differ: 0x3fbb_c89f_40a2_877f,
        },
        // 3.17e-05, 0.00024, 0.09962
        39 => Pin {
            tap: "forced.blk27",
            max_rel: 0x3f00_9eb3_b4cd_d286,
            rms_rel: 0x3f2f_7510_4d55_1d69,
            differ: 0x3fb9_80b2_4207_0b8d,
        },
        // 3.17e-05, 0.000266, 0.09681
        40 => Pin {
            tap: "forced.blk28",
            max_rel: 0x3f00_9eb3_b4cd_d286,
            rms_rel: 0x3f31_6ebd_4cfd_08d5,
            differ: 0x3fb8_c88a_47ec_fe9b,
        },
        // 3.17e-05, 0.00027, 0.07798
        41 => Pin {
            tap: "forced.blk29",
            max_rel: 0x3f00_9eb3_b4cd_d286,
            rms_rel: 0x3f31_b1d9_2b7f_e08b,
            differ: 0x3fb3_f67f_4dbd_f8f4,
        },
        // 3.17e-05, 0.000276, 0.0554
        42 => Pin {
            tap: "forced.blk30",
            max_rel: 0x3f00_9eb3_b4cd_d286,
            rms_rel: 0x3f32_1682_f944_241c,
            differ: 0x3fac_5d63_8865_94af,
        },
        // 0.00268, 0.000404, 0.07074
        43 => Pin {
            tap: "forced.blk31",
            max_rel: 0x3f65_f45e_0b4e_11dc,
            rms_rel: 0x3f3a_79fe_c99f_1ae3,
            differ: 0x3fb2_1c04_4284_dfce,
        },
        // 0.00108, 2.07e-05, 2e-05
        44 => Pin {
            tap: "forced.vit",
            max_rel: 0x3f51_b1d9_2b7f_e08b,
            rms_rel: 0x3ef5_b49d_2b1e_91bb,
            differ: 0x3ef4_f8b5_88e3_68f1,
        },
        // 0.00532, 0.0032, 0.48929
        _ => Pin {
            tap: "forced.aligner",
            max_rel: 0x3f75_ca6c_a03c_4b0a,
            rms_rel: 0x3f6a_36e2_eb1c_432d,
            differ: 0x3fdf_5087_0110_a138,
        },
    }
}

/// The first band from `at` on that is a tap's.
pub open spec fn first_pin(tap: Seq<char>, at: int) -> Option<int>
    decreases 46 - at,
{
    if at < 0 || at >= 46 {
        None
    } else if pin(at).tap == tap {
        Some(at)
    } else {
        first_pin(tap, at + 1)
    }
}

/// A tap's pinned band.
pub fn pin_of(tap: &str) -> (r: Option<Pin>)
    ensures
        match r {
            Some(p) => first_pin(tap@, 0) matches Some(i) && 0 <= i < 46 && p@ == pin(i),
            None => first_pin(tap@, 0) is None,
        },
{
    let mut i: usize = 0;
    while i < N_PINS
        invariant
            i <= 46,
            first_pin(tap@, 0) == first_pin(tap@, i as int),
        decreases 46 - i,
    {
        let p: Pin = pin_at(i);
        if text::same_str(p.tap, tap) {
            return Some(p);
        }
        i += 1;
    }
    None
}

// ------------------------------------------------------------ bands

/// A tap's distances from the reference.
#[derive(Clone, Copy, Debug, PartialEq, Eq, Structural)]
pub struct Stats {
    pub max_rel: u64,
    pub rms_rel: u64,
    pub differ: u64,
}

/// How a tap was judged.
#[derive(Clone, Copy, Debug, PartialEq, Eq, Structural)]
pub enum Judged {
    /// By its pinned band, and whether it holds.
    Pinned(bool),
    /// By a multiple of the reference's distance from itself, and whether it
    /// holds.
    Ruled(bool),
    /// Its distance is not in the set.
    NoRow,
    /// It has both a pin and a ruler.
    Both,
    /// It has neither.
    NoPin,
}

impl Judged {
    /// Whether the tap passes.
    pub fn passes(self) -> (r: bool)
        ensures
            r == (self == Judged::Pinned(true) || self == Judged::Ruled(true)),
    {
        match self {
            Judged::Pinned(ok) => ok,
            Judged::Ruled(ok) => ok,
            _ => false,
        }
    }
}

/// How a tap is judged: `limit` the bound its ruler's row sets, where there is
/// such a row.
pub open spec fn judgement(tap: Seq<char>, s: Stats, limit: Option<u64>) -> Judged {
    match (ruler_of(tap), first_pin(tap, 0)) {
        (Some(_), None) => match limit {
            Some(u) => Judged::Ruled(at_most(s.rms_rel, u)),
            None => Judged::NoRow,
        },
        (Some(_), Some(_)) => Judged::Both,
        (None, Some(i)) => Judged::Pinned(
            at_most(s.max_rel, pin(i).max_rel) && at_most(s.rms_rel, pin(i).rms_rel) && at_most(
                s.differ,
                pin(i).differ,
            ),
        ),
        (None, None) => Judged::NoPin,
    }
}

/// Judges a tap by its pin, or by the bound its ruler's row sets.
pub fn judge(tap: &str, s: &Stats, limit: Option<u64>) -> (r: Judged)
    ensures
        r == judgement(tap@, *s, limit),
{
    let p: Option<Pin> = pin_of(tap);
    match ruler(tap) {
        Some(_) => match p {
            Some(_) => Judged::Both,
            None => match limit {
                Some(u) => Judged::Ruled(is_at_most(s.rms_rel, u)),
                None => Judged::NoRow,
            },
        },
        None => match p {
            Some(p) => {
                let a: bool = is_at_most(s.max_rel, p.max_rel);
                let b: bool = is_at_most(s.rms_rel, p.rms_rel);
                let c: bool = is_at_most(s.differ, p.differ);
                Judged::Pinned(a && b && c)
            },
            None => Judged::NoPin,
        },
    }
}

// ------------------------------------------------------------ the widest of a tap

/// The larger of two doubles: the one that is a number where the other is not.
pub open spec fn larger(a: u64, b: u64) -> u64 {
    if not_a_number(b) || at_most(b, a) {
        a
    } else {
        b
    }
}

/// The larger of `a` and `b`.
fn larger_of(a: u64, b: u64) -> (r: u64)
    ensures
        r == larger(a, b),
{
    if !is_at_most(b, b) || is_at_most(b, a) {
        a
    } else {
        b
    }
}

impl Stats {
    /// The widest of this distance and another, number by number.
    pub fn widened(self, s: Stats) -> (r: Stats)
        ensures
            r == (Stats {
                max_rel: larger(self.max_rel, s.max_rel),
                rms_rel: larger(self.rms_rel, s.rms_rel),
                differ: larger(self.differ, s.differ),
            }),
    {
        Stats {
            max_rel: larger_of(self.max_rel, s.max_rel),
            rms_rel: larger_of(self.rms_rel, s.rms_rel),
            differ: larger_of(self.differ, s.differ),
        }
    }
}

/// The larger of two doubles bounds each of them that is a number, and is one
/// where either is.
pub proof fn law_the_larger_bounds_both(a: u64, b: u64)
    ensures
        !not_a_number(a) ==> at_most(a, larger(a, b)),
        !not_a_number(b) ==> at_most(b, larger(a, b)),
        larger(a, b) == a || larger(a, b) == b,
{
}

// ------------------------------------------------------------ one rule a tap

/// A tap of block 0's ops, or block 0 itself, has no ruler.
proof fn lemma_block_0_has_no_ruler(tap: Seq<char>)
    requires
        tap.len() >= 4,
        tap[0] == 'b',
        tap[3] == '0',
        tap.len() == 4 || tap[4] == '.',
    ensures
        ruler_of(tap) is None,
{
    reveal_strlit("vit");
    reveal_strlit("aligner");
    reveal_strlit("aligner.w1");
    reveal_strlit("aligner.h");
    reveal_strlit("blk");
    let rest = tap.skip(3);
    assert(rest[0] == '0');
    assert(text::unsigned_part(rest) == rest);
    if tap.len() == 4 {
        assert(rest.drop_last() =~= Seq::<char>::empty());
        assert(text::value(rest) == 0) by {
            reveal_with_fuel(text::value, 2);
        }
    } else {
        assert(rest[1] == '.');
        assert(!text::is_digit(rest[1]));
    }
}

/// The embedding and a forced tap have no ruler.
proof fn lemma_opener_has_no_ruler(tap: Seq<char>)
    requires
        tap.len() > 0,
        tap[0] == 'e' || tap[0] == 'f',
    ensures
        ruler_of(tap) is None,
{
    reveal_strlit("vit");
    reveal_strlit("aligner");
    reveal_strlit("aligner.w1");
    reveal_strlit("aligner.h");
    reveal_strlit("blk");
    if opens_with(tap, "blk"@) {
        assert(tap.take(3)[0] == "blk"@[0]);
    }
}

/// The pinned taps that open with the embedding's or a forced tap's letter.
proof fn lemma_forced_pins(i: int)
    requires
        i == 0 || 12 <= i < 46,
    ensures
        pin(i).tap.len() > 0,
        pin(i).tap[0] == 'e' || pin(i).tap[0] == 'f',
{
    reveal_strlit("embed");
    reveal_strlit("forced.blk0");
    reveal_strlit("forced.blk1");
    reveal_strlit("forced.blk2");
    reveal_strlit("forced.blk3");
    reveal_strlit("forced.blk4");
    reveal_strlit("forced.blk5");
    reveal_strlit("forced.blk6");
    reveal_strlit("forced.blk7");
    reveal_strlit("forced.blk8");
    reveal_strlit("forced.blk9");
    reveal_strlit("forced.blk10");
    reveal_strlit("forced.blk11");
    reveal_strlit("forced.blk12");
    reveal_strlit("forced.blk13");
    reveal_strlit("forced.blk14");
    reveal_strlit("forced.blk15");
    reveal_strlit("forced.blk16");
    reveal_strlit("forced.blk17");
    reveal_strlit("forced.blk18");
    reveal_strlit("forced.blk19");
    reveal_strlit("forced.blk20");
    reveal_strlit("forced.blk21");
    reveal_strlit("forced.blk22");
    reveal_strlit("forced.blk23");
    reveal_strlit("forced.blk24");
    reveal_strlit("forced.blk25");
    reveal_strlit("forced.blk26");
    reveal_strlit("forced.blk27");
    reveal_strlit("forced.blk28");
    reveal_strlit("forced.blk29");
    reveal_strlit("forced.blk30");
    reveal_strlit("forced.blk31");
    reveal_strlit("forced.vit");
    reveal_strlit("forced.aligner");
}

/// The pinned taps of block 0.
proof fn lemma_block_pins(i: int)
    requires
        1 <= i < 12,
    ensures
        pin(i).tap.len() >= 4,
        pin(i).tap[0] == 'b',
        pin(i).tap[3] == '0',
        pin(i).tap.len() == 4 || pin(i).tap[4] == '.',
{
    reveal_strlit("blk0.norm1");
    reveal_strlit("blk0.qkv");
    reveal_strlit("blk0.qrot");
    reveal_strlit("blk0.krot");
    reveal_strlit("blk0.sdpa");
    reveal_strlit("blk0.attn");
    reveal_strlit("blk0.norm2");
    reveal_strlit("blk0.w1");
    reveal_strlit("blk0.act");
    reveal_strlit("blk0.mlp");
    reveal_strlit("blk0");
}

/// No tap has both a pin and a ruler: whatever its distances, a tap is never
/// judged by two rules.
pub proof fn law_no_tap_has_two_rules(tap: Seq<char>, s: Stats, limit: Option<u64>)
    ensures
        judgement(tap, s, limit) != Judged::Both,
{
    lemma_first_pin(tap, 0);
    if let Some(i) = first_pin(tap, 0) {
        if i == 0 || i >= 12 {
            lemma_forced_pins(i);
            lemma_opener_has_no_ruler(tap);
        } else {
            lemma_block_pins(i);
            lemma_block_0_has_no_ruler(tap);
        }
    }
}

/// A pin found is a tap's own, and one of the list's is found.
proof fn lemma_first_pin(tap: Seq<char>, at: int)
    requires
        0 <= at <= 46,
    ensures
        first_pin(tap, at) matches Some(i) ==> at <= i < 46 && pin(i).tap == tap,
        first_pin(tap, at) is None ==> forall|i: int|
            at <= i < 46 ==> (#[trigger] pin(i)).tap != tap,
    decreases 46 - at,
{
    if at < 46 && pin(at).tap != tap {
        lemma_first_pin(tap, at + 1);
    }
}

/// A free-running block's tap has a ruler, its own.
proof fn lemma_blocks_have_rulers(b: nat)
    requires
        1 <= b < 32,
    ensures
        ruler_of("blk"@ + decimal(b)) == Some("blk"@ + decimal(b)),
{
    reveal_strlit("blk");
    reveal_strlit("vit");
    reveal_strlit("aligner");
    reveal_strlit("aligner.w1");
    reveal_strlit("aligner.h");
    let tap = "blk"@ + decimal(b);
    assert(tap[0] == 'b');
    assert(tap.take(3) =~= "blk"@);
    assert(tap.skip(3) =~= decimal(b));
    assert(usize::MAX >= 0xffff_ffff);
    text::law_number_reads_decimal(b, usize::MAX as nat);
}

/// Every tap of the chain has a rule: whatever its distances, none is left
/// unjudged, but for a row the set does not hold.
pub proof fn law_every_tap_has_a_rule(i: int, s: Stats, limit: Option<u64>)
    requires
        0 <= i < 46,
    ensures
        judgement(chain_tap(i), s, limit) != Judged::NoPin,
{
    let tap = chain_tap(i);
    lemma_first_pin(tap, 0);
    if i == 0 {
        assert(pin(0).tap == tap);
    } else if i <= 10 {
        lemma_op_pins(i);
        assert(pin(i).tap == tap);
    } else if i == 11 {
        reveal_strlit("blk");
        reveal_strlit("blk0");
        assert(decimal(0) =~= seq!['0']);
        assert(tap =~= "blk0"@);
        assert(pin(11).tap == tap);
    } else if i <= 42 {
        lemma_blocks_have_rulers((i - 11) as nat);
    }
}

/// The ops of block 0 are pinned in chain order.
proof fn lemma_op_pins(i: int)
    requires
        1 <= i <= 10,
    ensures
        chain_tap(i) == pin(i).tap,
{
    reveal_strlit("blk0.");
    reveal_strlit("blk0.norm1");
    reveal_strlit("norm1");
    reveal_strlit("blk0.qkv");
    reveal_strlit("qkv");
    reveal_strlit("blk0.qrot");
    reveal_strlit("qrot");
    reveal_strlit("blk0.krot");
    reveal_strlit("krot");
    reveal_strlit("blk0.sdpa");
    reveal_strlit("sdpa");
    reveal_strlit("blk0.attn");
    reveal_strlit("attn");
    reveal_strlit("blk0.norm2");
    reveal_strlit("norm2");
    reveal_strlit("blk0.w1");
    reveal_strlit("w1");
    reveal_strlit("blk0.act");
    reveal_strlit("act");
    reveal_strlit("blk0.mlp");
    reveal_strlit("mlp");
    assert(chain_tap(i) =~= pin(i).tap);
}

// ------------------------------------------------------------ what the set's lines say

/// An image's stem is its name without the extension, and a name without it is its
/// own stem.
pub proof fn law_a_stem_loses_the_extension(s: Seq<char>)
    ensures
        stem_of(s + ".png"@) == s,
        !ends_with(s, ".png"@) ==> stem_of(s) == s,
{
    let name = s + ".png"@;
    reveal_strlit(".png");
    assert(name.skip(name.len() - ".png"@.len()) =~= ".png"@);
    assert(name.take(name.len() - ".png"@.len()) =~= s);
}

/// The images are arranged with the full one before every other, and the others by
/// name.
pub proof fn law_the_full_image_comes_first(v: Seq<ImgView>, i: int, j: int)
    requires
        0 <= i < j < arranged(v).len(),
    ensures
        stem_of(arranged(v)[j].name) == "grad-448"@ ==> stem_of(arranged(v)[i].name) == "grad-448"@,
        stem_of(arranged(v)[i].name) != "grad-448"@ && stem_of(arranged(v)[j].name) != "grad-448"@
            ==> !lex_less(arranged(v)[j].name, arranged(v)[i].name),
        arranged(v).len() == v.len(),
{
    law_images_are_arranged(v);
    assert(!before(arranged(v)[j], arranged(v)[i]));
    broadcast use vstd::seq_lib::group_to_multiset_ensures;

    assert(arranged(v).to_multiset().len() == arranged(v).len());
    assert(v.to_multiset().len() == v.len());
}

/// An image's line gives its name and its two patch counts, a file's its name, rows
/// and columns, the encoder's its path and a sensitivity's its tap and its measure;
/// another line gives nothing.
pub proof fn law_a_line_is_read_by_its_first_field(
    f: Seq<Seq<char>>,
    rows: nat,
    cols: nat,
)
    requires
        rows <= usize::MAX,
        cols <= usize::MAX,
        f.len() >= 9,
    ensures
        f[0] == "image"@ && f[7] == decimal(rows) && f[8] == decimal(cols) ==> line_of(f) == Ok::<
            LineView,
            LineError,
        >(LineView::Image((ImgView { name: f[1], n_vit_h: rows, n_vit_w: cols }))),
        f[0] == "file"@ && f[3] == "bf16"@ && f[4] == decimal(rows) + seq!['x'] + decimal(cols)
            ==> line_of(f) == Ok::<LineView, LineError>(
            LineView::File((FileView { name: f[1], rows, cols })),
        ),
        f[0] == "file"@ && f[3] != "bf16"@ ==> line_of(f) == Ok::<LineView, LineError>(
            LineView::Nothing,
        ),
        f[0] == "# mmproj"@ ==> line_of(f) == Ok::<LineView, LineError>(LineView::Mmproj(f[1])),
        f[0] == "# sensitivity"@ && is_float_text(f[3]) ==> line_of(f) == Ok::<LineView, LineError>(
            LineView::Sensitivity((SensView { tap: f[1], rms_rel: f[3] })),
        ),
        f[0] != "image"@ && f[0] != "file"@ && f[0] != "# mmproj"@ && f[0] != "# sensitivity"@
            ==> line_of(f) == Ok::<LineView, LineError>(LineView::Nothing),
{
    reveal_strlit("image");
    reveal_strlit("file");
    reveal_strlit("# mmproj");
    reveal_strlit("# sensitivity");
    assert("image"@.len() == 5 && "file"@.len() == 4 && "# mmproj"@.len() == 8
        && "# sensitivity"@.len() == 13);
    text::law_number_reads_decimal(rows, usize::MAX as nat);
    text::law_number_reads_decimal(cols, usize::MAX as nat);
    let (a, b) = (decimal(rows), decimal(cols));
    text::lemma_decimal_value(rows);
    text::lemma_decimal_value(cols);
    assert(!a.contains('x')) by {
        assert forall|i: int| 0 <= i < a.len() implies a[i] != 'x' by {
            assert(text::is_digit(a[i]));
        }
    }
    assert(!b.contains('x')) by {
        assert forall|i: int| 0 <= i < b.len() implies b[i] != 'x' by {
            assert(text::is_digit(b[i]));
        }
    }
    text::law_a_separator_cuts(a, 'x', b);
    text::law_a_separator_cuts(b, 'x', seq![]);
    let parts = split(a + seq!['x'] + b, 'x');
    assert(parts =~= seq![a, b]);
    reveal_with_fuel(text::numbers, 3);
    assert(parts.drop_last() =~= seq![a]);
    assert(seq![a].drop_last() =~= Seq::<Seq<char>>::empty());
    assert(parts.last() == b && seq![a].last() == a);
    assert(text::numbers(seq![a], usize::MAX as nat) == Some(seq![rows]));
    assert(dims_of(a + seq!['x'] + b) == Some(seq![rows, cols]));
}

/// The lines are read one after another, each added to what those before it gave;
/// the first that does not read is the one refused.
pub proof fn law_a_line_adds_to_what_came_before(
    lines: Seq<Seq<char>>,
    line: Seq<char>,
    v: Lines,
    z: Lines,
)
    requires
        read_from(lines, 0, v) == Ok::<Lines, SetError>(z),
    ensures
        ({
            let more = read_from(lines.push(line), 0, v);
            match line_of(split(line, '\t')) {
                Ok(LineView::Mmproj(p)) => more == Ok::<Lines, SetError>(
                    (Lines { mmproj: Some(p), ..z }),
                ),
                Ok(LineView::Image(i)) => more == Ok::<Lines, SetError>(
                    (Lines { images: z.images.push(i), ..z }),
                ),
                Ok(LineView::File(f)) => more == Ok::<Lines, SetError>(
                    (Lines { files: z.files.push(f), ..z }),
                ),
                Ok(LineView::Sensitivity(s)) => more == Ok::<Lines, SetError>(
                    (Lines { sensitivity: z.sensitivity.push(s), ..z }),
                ),
                Ok(LineView::Nothing) => more == Ok::<Lines, SetError>(z),
                Err(e) => more == Err::<Lines, SetError>(SetError::Line(lines.len() as usize, e)),
            }
        }),
        read_from(seq![], 0, v) == Ok::<Lines, SetError>(v),
{
    lemma_read_to(lines, line, 0, v);
}

proof fn lemma_read_to(lines: Seq<Seq<char>>, line: Seq<char>, at: int, v: Lines)
    requires
        0 <= at <= lines.len(),
        read_from(lines, at, v) is Ok,
    ensures
        read_from(lines.push(line), at, v) == read_from(
            lines.push(line),
            lines.len() as int,
            read_from(lines, at, v)->Ok_0,
        ),
        read_from(lines.push(line), lines.len() as int, read_from(lines, at, v)->Ok_0) == (match line_of(
            split(line, '\t'),
        ) {
            Err(e) => Err::<Lines, SetError>(SetError::Line(lines.len() as usize, e)),
            Ok(l) => Ok(with_line(read_from(lines, at, v)->Ok_0, l)),
        }),
    decreases lines.len() - at,
{
    let s = lines.push(line);
    if at < lines.len() {
        assert(s[at] == lines[at]);
        match line_of(split(lines[at], '\t')) {
            Err(_) => {},
            Ok(l) => {
                lemma_read_to(lines, line, at + 1, with_line(v, l));
            },
        }
    } else {
        assert(s[at] == line);
        reveal_with_fuel(read_from, 3);
    }
}

/// A set that is read is complete and of the known checkpoint, has the columns that
/// are read, and names its encoder.
pub proof fn law_a_set_that_reads_is_whole(s: Seq<char>, z: Lines)
    requires
        set_of(s) == Ok::<Lines, SetError>(z),
    ensures
        exists|i: int|
            0 <= i < text::lines(s).len() && opens_with(
                #[trigger] text::lines(s)[i],
                "# complete\t"@,
            ),
        exists|i: int|
            0 <= i < text::lines(s).len() && opens_with(
                #[trigger] text::lines(s)[i],
                "# checkpoint\t"@,
            ) && holds(text::lines(s)[i], "dba1be0a40aa45a94ad051997016db3960a90277"@),
        exists|i: int|
            0 <= i < text::lines(s).len() && opens_with(
                #[trigger] text::lines(s)[i],
                "# sensitivity columns\ttap max_rel rms_rel differ\t"@,
            ),
        z.mmproj is Some,
        read_from(text::lines(s), 0, no_lines()) == Ok::<Lines, SetError>(z),
{
    let l = text::lines(s);
    lemma_line_with_is(l, "# complete\t"@, 0);
    lemma_line_with_is(l, "# checkpoint\t"@, 0);
    lemma_line_with_is(l, "# sensitivity columns\t"@, 0);
}

proof fn lemma_line_with_is(lines: Seq<Seq<char>>, prefix: Seq<char>, at: int)
    requires
        0 <= at,
    ensures
        match line_with(lines, prefix, at) {
            Some(f) => at <= f < lines.len() && opens_with(lines[f], prefix) && forall|i: int|
                at <= i < f ==> !opens_with(#[trigger] lines[i], prefix),
            None => forall|i: int| at <= i < lines.len() ==> !opens_with(#[trigger] lines[i], prefix),
        },
    decreases lines.len() - at,
{
    if at < lines.len() && !opens_with(lines[at], prefix) {
        lemma_line_with_is(lines, prefix, at + 1);
    }
}

/// The sensitivity of a tap is the last one given for it.
pub proof fn law_the_last_sensitivity_counts(v: Seq<Sensitivity>, tap: Seq<char>, n: int, i: int)
    requires
        0 <= i < n <= v.len(),
    ensures
        match last_sensitivity(v, tap, n) {
            Some(f) => 0 <= f < n && v[f].tap@ == tap && (f < i ==> v[i].tap@ != tap),
            None => v[i].tap@ != tap,
        },
    decreases n,
{
    if v[n - 1].tap@ != tap && n > 1 {
        law_the_last_sensitivity_counts(
            v,
            tap,
            n - 1,
            if i < n - 1 {
                i
            } else {
                0
            },
        );
    } else {
        reveal_with_fuel(last_sensitivity, 2);
    }
}

/// The taps of an image are those of the chain whose file the set holds, each once
/// and in the chain's order.
pub proof fn law_the_held_taps_have_their_files(
    files: Seq<BitsFile>,
    stem: Seq<char>,
    n: int,
    i: int,
)
    requires
        0 <= i < n,
    ensures
        has_file(files, stem + "."@ + chain_tap(i) + ".bf16"@) ==> held_taps(files, stem, n).contains(
            chain_tap(i),
        ),
        held_taps(files, stem, n).len() == crate::count::count_where(
            n,
            |k: int| has_file(files, stem + "."@ + chain_tap(k) + ".bf16"@),
        ),
    decreases n,
{
    let p = |k: int| has_file(files, stem + "."@ + chain_tap(k) + ".bf16"@);
    let before = held_taps(files, stem, n - 1);
    let all = held_taps(files, stem, n);
    if n > 1 {
        law_the_held_taps_have_their_files(
            files,
            stem,
            n - 1,
            if i < n - 1 {
                i
            } else {
                0
            },
        );
    } else {
        reveal_with_fuel(held_taps, 2);
        reveal_with_fuel(crate::count::count_where, 2);
    }
    assert(p(n - 1) == has_file(files, tap_file_of(stem, chain_tap(n - 1))));
    if p(n - 1) {
        assert(all == before.push(chain_tap(n - 1)));
        assert(all[all.len() - 1] == chain_tap(n - 1));
        if i < n - 1 && p(i) {
            let k = choose|k: int| 0 <= k < before.len() && before[k] == chain_tap(i);
            assert(all[k] == chain_tap(i));
        }
    }
}

/// A block is forced where the set holds both its ends: it reads what the block
/// before it wrote, the first what the embedding did, and is compared with its own.
pub proof fn law_a_forced_block_has_both_its_ends(
    files: Seq<BitsFile>,
    stem: Seq<char>,
    n: int,
    i: int,
    b: int,
)
    requires
        0 <= b < n,
    ensures
        0 <= i < forced_of(files, stem, n).len() ==> {
            let f = forced_of(files, stem, n)[i];
            &&& f.block < n
            &&& f.input == tap_file_of(
                stem,
                if f.block == 0 {
                    "embed"@
                } else {
                    "blk"@ + decimal((f.block - 1) as nat)
                },
            )
            &&& f.output == tap_file_of(stem, "blk"@ + decimal(f.block))
            &&& has_file(files, f.input) && has_file(files, f.output)
        },
        has_file(files, tap_file_of(stem, "blk"@ + decimal(b as nat))) && has_file(
            files,
            tap_file_of(
                stem,
                if b == 0 {
                    "embed"@
                } else {
                    "blk"@ + decimal((b - 1) as nat)
                },
            ),
        ) ==> exists|k: int|
            0 <= k < forced_of(files, stem, n).len() && (#[trigger] forced_of(files, stem, n)[k]).block
                == b,
    decreases n,
{
    let before = forced_of(files, stem, n - 1);
    let all = forced_of(files, stem, n);
    if n > 1 {
        law_a_forced_block_has_both_its_ends(
            files,
            stem,
            n - 1,
            i,
            if b < n - 1 {
                b
            } else {
                0
            },
        );
    } else {
        reveal_with_fuel(forced_of, 2);
    }
    if all.len() > before.len() {
        assert(all[all.len() - 1].block == n - 1);
        if 0 <= i < before.len() {
            assert(all[i] == before[i]);
        }
        if b < n - 1 && exists|k: int| 0 <= k < before.len() && (#[trigger] before[k]).block == b {
            let k = choose|k: int| 0 <= k < before.len() && (#[trigger] before[k]).block == b;
            assert(all[k] == before[k]);
        }
    }
}

/// The later blocks are ruled by their own tap, the aligner's parts by the aligner;
/// the first block and the embedding by none.
pub proof fn law_a_tap_is_ruled_by_its_stage(b: nat)
    requires
        b <= usize::MAX,
    ensures
        b >= 1 ==> ruler_of("blk"@ + decimal(b)) == Some("blk"@ + decimal(b)),
        ruler_of("blk"@ + decimal(0)) is None,
        ruler_of("vit"@) == Some("vit"@),
        ruler_of("aligner"@) == Some("aligner"@),
        ruler_of("aligner.w1"@) == Some("aligner"@),
        ruler_of("aligner.h"@) == Some("aligner"@),
        ruler_of("embed"@) is None,
{
    reveal_strlit("blk");
    reveal_strlit("vit");
    reveal_strlit("aligner");
    reveal_strlit("aligner.w1");
    reveal_strlit("aligner.h");
    reveal_strlit("embed");
    let (t, z) = ("blk"@ + decimal(b), "blk"@ + decimal(0));
    assert("vit"@.len() == 3 && "aligner"@.len() == 7 && "aligner.w1"@.len() == 10 && "aligner.h"@.len()
        == 9 && "embed"@.len() == 5);
    assert(t[0] == 'b' && z[0] == 'b');
    assert("vit"@[0] == 'v' && "aligner"@[0] == 'a' && "aligner.w1"@[0] == 'a' && "aligner.h"@[0]
        == 'a');
    assert(t.take(3) =~= "blk"@ && z.take(3) =~= "blk"@);
    assert(t.skip(3) =~= decimal(b) && z.skip(3) =~= decimal(0));
    text::law_number_reads_decimal(b, usize::MAX as nat);
    text::law_number_reads_decimal(0, usize::MAX as nat);
    assert("embed"@.take(3)[0] == 'e');
    assert("blk"@[0] == 'b');
}

/// A pinned tap passes where each of its three distances is at most its pin's, a
/// ruled one where its measure is at most the ruler's; a ruled tap without a row of
/// its ruler is told apart.
pub proof fn law_a_tap_passes_within_its_rule(tap: Seq<char>, s: Stats, limit: Option<u64>)
    ensures
        judgement(tap, s, limit) == Judged::Pinned(true) ==> exists|i: int|
            0 <= i < 46 && (#[trigger] pin(i)).tap == tap && at_most(s.max_rel, pin(i).max_rel)
                && at_most(s.rms_rel, pin(i).rms_rel) && at_most(s.differ, pin(i).differ),
        judgement(tap, s, limit) == Judged::Ruled(true) ==> ruler_of(tap) is Some && (
        limit matches Some(u) && at_most(s.rms_rel, u)),
        judgement(tap, s, limit) == Judged::Ruled(false) ==> (limit matches Some(u) && !at_most(
            s.rms_rel,
            u,
        )),
        judgement(tap, s, limit) == Judged::NoRow ==> ruler_of(tap) is Some && limit is None,
{
    lemma_first_pin(tap, 0);
    if let Some(i) = first_pin(tap, 0) {
        assert(pin(i).tap == tap);
    }
}

} // verus!
