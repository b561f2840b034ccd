//! The names a dump set gives its rows and files: the kinds of rows, the
//! element orders and widths of files, and the one rule every file name
//! follows.
use crate::text;
use vstd::prelude::*;

verus! {

/// Which kind of manifest row a file belongs to: a graph node (`tensor`) or a
/// graph leaf the host fills before the graph runs (`input`: token ids,
/// positions, masks, engram row ids). The two are separate occurrence
/// namespaces, and an input's files carry `.input` in their names.
#[derive(Clone, Copy, Debug, PartialEq, Eq, Hash, Structural)]
pub enum RowKind {
    Tensor,
    Input,
}

impl RowKind {
    /// The manifest's spelling.
    pub open spec fn spelling(self) -> Seq<char> {
        match self {
            RowKind::Tensor => "tensor"@,
            RowKind::Input => "input"@,
        }
    }

    /// The manifest's spelling: `tensor` or `input`.
    pub fn as_str(self) -> (r: &'static str)
        ensures
            r@ == self.spelling(),
    {
        match self {
            RowKind::Tensor => "tensor",
            RowKind::Input => "input",
        }
    }
}

/// The element order of a set file: `Flat` is the tensor's memory read
/// contiguously from its data pointer (the plain file), `Logical` its elements
/// in ggml index order through its own strides (the twin every view or
/// non-contiguous row also gets).
#[derive(Clone, Copy, Debug, PartialEq, Eq, Hash, Structural)]
pub enum Layout {
    Flat,
    Logical,
}

impl Layout {
    /// The manifest's spelling.
    pub open spec fn spelling(self) -> Seq<char> {
        match self {
            Layout::Flat => "flat"@,
            Layout::Logical => "logical"@,
        }
    }

    /// The manifest's spelling: `flat` or `logical`.
    pub fn as_str(self) -> (r: &'static str)
        ensures
            r@ == self.spelling(),
    {
        match self {
            Layout::Flat => "flat",
            Layout::Logical => "logical",
        }
    }
}

/// What a set file holds per element: the f32 conversion every row has, or an
/// integer twin's lossless width (i8, i16 and i32 widen to `I32`).
#[derive(Clone, Copy, Debug, PartialEq, Eq, Structural)]
pub enum FileElem {
    F32,
    I32,
    I64,
}

impl FileElem {
    /// The file-name extension.
    pub open spec fn extension(self) -> Seq<char> {
        match self {
            FileElem::F32 => "f32"@,
            FileElem::I32 => "i32"@,
            FileElem::I64 => "i64"@,
        }
    }

    /// Bytes per element.
    pub open spec fn bytes_each(self) -> u64 {
        match self {
            FileElem::F32 => 4,
            FileElem::I32 => 4,
            FileElem::I64 => 8,
        }
    }

    /// The file-name extension, also the manifest's spelling of a twin.
    pub fn ext(self) -> (r: &'static str)
        ensures
            r@ == self.extension(),
    {
        match self {
            FileElem::F32 => "f32",
            FileElem::I32 => "i32",
            FileElem::I64 => "i64",
        }
    }

    /// Bytes per element.
    pub fn width(self) -> (r: u64)
        ensures
            r == self.bytes_each(),
    {
        match self {
            FileElem::F32 => 4,
            FileElem::I32 => 4,
            FileElem::I64 => 8,
        }
    }
}

/// A character as a file's stem writes it: one that would split the name into
/// path elements, or a blank, becomes an underscore.
pub open spec fn stem_char(c: char) -> char {
    if c == '/' || c == '\\' || c == ' ' {
        '_'
    } else {
        c
    }
}

/// A name as the stem of its files.
pub open spec fn stem(name: Seq<char>) -> Seq<char> {
    name.map_values(|c: char| stem_char(c))
}

/// The stem of a name, as characters.
fn stem_chars(name: &str) -> (r: Vec<char>)
    ensures
        r@ == stem(name@),
{
    let cs: Vec<char> = text::chars_of(name);
    let mut out: Vec<char> = Vec::new();
    let mut i: usize = 0;
    while i < cs.len()
        invariant
            i <= cs@.len(),
            out@ =~= stem(cs@.take(i as int)),
        decreases cs@.len() - i,
    {
        let c: char = cs[i];
        out.push(
            if c == '/' || c == '\\' || c == ' ' {
                '_'
            } else {
                c
            },
        );
        i += 1;
    }
    assert(cs@.take(cs@.len() as int) =~= cs@);
    out
}

/// A manifest name as the stem of its files: every `/`, `\` and space becomes
/// `_`, which keeps the name one path element. The manifest keeps the raw
/// name, so a file name formed from a row goes through [`dump_file_name`].
pub fn dump_stem(name: &str) -> (r: String)
    ensures
        r@ == stem(name@),
{
    text::string_of(stem_chars(name).as_slice())
}

/// What follows the stem and the occurrence in a file's name.
pub open spec fn file_tail(of: RowKind, layout: Layout, elem: FileElem) -> Seq<char> {
    (if of == RowKind::Input {
        ".input"@
    } else {
        Seq::empty()
    }) + (if layout == Layout::Logical {
        ".logical"@
    } else {
        Seq::empty()
    }) + "."@ + elem.extension()
}

/// The name of a set file.
pub open spec fn file_name_of(
    name: Seq<char>,
    occurrence: u32,
    of: RowKind,
    layout: Layout,
    elem: FileElem,
) -> Seq<char> {
    stem(name) + "."@ + text::decimal(occurrence as nat) + file_tail(of, layout, elem)
}

/// The name the dumper gives a set file:
/// `<stem>.<occurrence>[.input][.logical].<ext>`, with `.input` on a graph
/// input's files, `.logical` on a logical twin, `ext` from `elem` (`f32`, or an
/// integer twin's `i32` or `i64`), and the stem from [`dump_stem`]. Every set
/// file name is formed here.
pub fn dump_file_name(
    name: &str,
    occurrence: u32,
    of: RowKind,
    layout: Layout,
    elem: FileElem,
) -> (r: String)
    ensures
        r@ == file_name_of(name@, occurrence, of, layout, elem),
{
    let mut out: Vec<char> = stem_chars(name);
    text::push_str(&mut out, ".");
    text::push_decimal(&mut out, occurrence as u64);
    if of == RowKind::Input {
        text::push_str(&mut out, ".input");
    }
    if layout == Layout::Logical {
        text::push_str(&mut out, ".logical");
    }
    text::push_str(&mut out, ".");
    text::push_str(&mut out, elem.ext());
    assert(out@ =~= file_name_of(name@, occurrence, of, layout, elem));
    text::string_of(out.as_slice())
}

// ------------------------------------------------------------ laws

/// A stem is one path element: it holds no separator and no blank.
pub proof fn law_stem_is_one_path_element(name: Seq<char>)
    ensures
        stem(name).len() == name.len(),
        forall|i: int|
            0 <= i < stem(name).len() ==> {
                let c = #[trigger] stem(name)[i];
                c != '/' && c != '\\' && c != ' '
            },
{
}

/// The files of one name are told apart: two of them with the same name have
/// the same occurrence, kind, element order and element width.
pub proof fn law_files_of_a_name_differ(
    name: Seq<char>,
    o1: u32,
    k1: RowKind,
    l1: Layout,
    e1: FileElem,
    o2: u32,
    k2: RowKind,
    l2: Layout,
    e2: FileElem,
)
    requires
        file_name_of(name, o1, k1, l1, e1) == file_name_of(name, o2, k2, l2, e2),
    ensures
        o1 == o2,
        k1 == k2,
        l1 == l2,
        e1 == e2,
{
    let d1 = text::decimal(o1 as nat);
    let d2 = text::decimal(o2 as nat);
    let t1 = file_tail(k1, l1, e1);
    let t2 = file_tail(k2, l2, e2);
    let a = file_name_of(name, o1, k1, l1, e1);
    let n = name.len() + "."@.len();
    assert(a.skip(n as int) =~= d1 + t1);
    assert(a.skip(n as int) =~= d2 + t2);
    lemma_tail(k1, l1, e1);
    lemma_tail(k2, l2, e2);
    text::lemma_decimal_has_no_point(o1 as nat);
    text::lemma_decimal_has_no_point(o2 as nat);
    let both = d1 + t1;
    if d1.len() < d2.len() {
        assert((d2 + t2)[d1.len() as int] == d2[d1.len() as int]);
        assert(both[d1.len() as int] == t1[0]);
    } else if d2.len() < d1.len() {
        assert(both[d2.len() as int] == d1[d2.len() as int]);
        assert((d2 + t2)[d2.len() as int] == t2[0]);
    }
    assert(d1.len() == d2.len());
    assert(d1 =~= d2) by {
        assert(both.take(d1.len() as int) =~= d1);
        assert((d2 + t2).take(d2.len() as int) =~= d2);
    }
    text::lemma_decimal_injective(o1 as nat, o2 as nat);
    assert(t1 =~= t2) by {
        assert(both.skip(d1.len() as int) =~= t1);
        assert((d2 + t2).skip(d2.len() as int) =~= t2);
    }
    assert(t1.skip(t1.len() - 3) =~= e1.extension());
    assert(t2.skip(t2.len() - 3) =~= e2.extension());
    lemma_extensions(e1, e2);
}

proof fn lemma_tail(of: RowKind, layout: Layout, elem: FileElem)
    ensures
        file_tail(of, layout, elem).len() == (if of == RowKind::Input {
            6int
        } else {
            0
        }) + (if layout == Layout::Logical {
            8int
        } else {
            0
        }) + 4,
        file_tail(of, layout, elem)[0] == '.',
        elem.extension().len() == 3,
{
    reveal_strlit(".input");
    reveal_strlit(".logical");
    reveal_strlit(".");
    reveal_strlit("f32");
    reveal_strlit("i32");
    reveal_strlit("i64");
}

proof fn lemma_extensions(a: FileElem, b: FileElem)
    requires
        a.extension() == b.extension(),
    ensures
        a == b,
{
    reveal_strlit("f32");
    reveal_strlit("i32");
    reveal_strlit("i64");
    assert("f32"@[0] == 'f' && "i32"@[0] == 'i' && "i64"@[0] == 'i');
    assert("i32"@[1] == '3' && "i64"@[1] == '6');
}

/// A stem keeps every character of its name but the two slashes and the blank,
/// and these become `_`.
pub proof fn law_a_stem_keeps_its_name(name: Seq<char>, i: int)
    requires
        0 <= i < name.len(),
    ensures
        name[i] != '/' && name[i] != '\\' && name[i] != ' ' ==> stem(name)[i] == name[i],
        name[i] == '/' || name[i] == '\\' || name[i] == ' ' ==> stem(name)[i] == '_',
{
}

/// A file is named by its stem, a point and its occurrence, then `.input` for an
/// input, `.logical` for a logical twin, and the element: 4 bytes each of `f32` and
/// `i32`, 8 of `i64`.
pub proof fn law_a_file_is_named_by_its_row(name: Seq<char>, occurrence: u32)
    ensures
        ({
            let head = stem(name) + "."@ + text::decimal(occurrence as nat);
            let file = |of: RowKind, layout: Layout, elem: FileElem|
                file_name_of(name, occurrence, of, layout, elem);
            &&& file(RowKind::Tensor, Layout::Flat, FileElem::F32) == head + ".f32"@
            &&& file(RowKind::Input, Layout::Flat, FileElem::F32) == head + ".input.f32"@
            &&& file(RowKind::Tensor, Layout::Logical, FileElem::F32) == head + ".logical.f32"@
            &&& file(RowKind::Input, Layout::Logical, FileElem::I64) == head + ".input.logical.i64"@
            &&& file(RowKind::Tensor, Layout::Flat, FileElem::I32) == head + ".i32"@
        }),
        FileElem::F32.bytes_each() == 4 && FileElem::I32.bytes_each() == 4
            && FileElem::I64.bytes_each() == 8,
{
    reveal_strlit(".");
    reveal_strlit("f32");
    reveal_strlit("i32");
    reveal_strlit("i64");
    reveal_strlit(".f32");
    reveal_strlit(".i32");
    reveal_strlit(".input");
    reveal_strlit(".logical");
    reveal_strlit(".input.f32");
    reveal_strlit(".logical.f32");
    reveal_strlit(".input.logical.i64");
    let head = stem(name) + "."@ + text::decimal(occurrence as nat);
    assert(file_name_of(name, occurrence, RowKind::Tensor, Layout::Flat, FileElem::F32) =~= head
        + ".f32"@);
    assert(file_name_of(name, occurrence, RowKind::Input, Layout::Flat, FileElem::F32) =~= head
        + ".input.f32"@);
    assert(file_name_of(name, occurrence, RowKind::Tensor, Layout::Logical, FileElem::F32) =~= head
        + ".logical.f32"@);
    assert(file_name_of(name, occurrence, RowKind::Input, Layout::Logical, FileElem::I64) =~= head
        + ".input.logical.i64"@);
    assert(file_name_of(name, occurrence, RowKind::Tensor, Layout::Flat, FileElem::I32) =~= head
        + ".i32"@);
}

} // verus!
