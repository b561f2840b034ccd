//! The artifact-section tools: what their arguments ask for, the names and lines
//! they write, and the body of a saved single-entry dump.
use crate::text;
use crate::text::decimal;
use vstd::prelude::*;

verus! {

/// What the extractor is asked for.
#[derive(Clone, Debug)]
pub enum Command {
    /// Write the modules of a section, and the entries' bodies where `norm`.
    Extract { section: String, dir: String, norm: bool },
    /// Print the body of a saved dump of one entry.
    NormDump { entry: String, file: String },
}

/// A command, by its characters.
pub ghost enum CommandView {
    Extract(Seq<char>, Seq<char>, bool),
    NormDump(Seq<char>, Seq<char>),
}

impl View for Command {
    type V = CommandView;

    open spec fn view(&self) -> CommandView {
        match *self {
            Command::Extract { section, dir, norm } => CommandView::Extract(
                section@,
                dir@,
                norm,
            ),
            Command::NormDump { entry, file } => CommandView::NormDump(entry@, file@),
        }
    }
}

/// What the arguments ask for: two are a section and a directory, whatever they
/// say; three ask by their first.
pub open spec fn command_of(a: Seq<Seq<char>>) -> Option<CommandView> {
    if a.len() == 2 {
        Some(CommandView::Extract(a[0], a[1], false))
    } else if a.len() == 3 && a[0] == "--norm"@ {
        Some(CommandView::Extract(a[1], a[2], true))
    } else if a.len() == 3 && a[0] == "--norm-dump"@ {
        Some(CommandView::NormDump(a[1], a[2]))
    } else {
        None
    }
}

/// A copy of a text.
fn copied(s: &String) -> (r: String)
    ensures
        r@ == s@,
{
    text::string_of(text::chars_of(s.as_str()).as_slice())
}

impl Command {
    /// What the arguments ask for, the program's name not among them; nothing
    /// where they are not the tool's.
    pub fn parse(args: &[String]) -> (r: Option<Command>)
        ensures
            match r {
                Some(c) => command_of(text::strings(args@)) == Some(c@),
                None => command_of(text::strings(args@)) is None,
            },
    {
        let ghost all = text::strings(args@);
        assert(all.len() == args@.len());
        if args.len() == 2 {
            assert(all[0] == args@[0]@ && all[1] == args@[1]@);
            return Some(
                Command::Extract { section: copied(&args[0]), dir: copied(&args[1]), norm: false },
            );
        }
        if args.len() != 3 {
            return None;
        }
        assert(all[0] == args@[0]@ && all[1] == args@[1]@ && all[2] == args@[2]@);
        if text::same_str(args[0].as_str(), "--norm") {
            Some(Command::Extract { section: copied(&args[1]), dir: copied(&args[2]), norm: true })
        } else if text::same_str(args[0].as_str(), "--norm-dump") {
            Some(Command::NormDump { entry: copied(&args[1]), file: copied(&args[2]) })
        } else {
            None
        }
    }
}

/// The file of the section's `n`th module, counted from 1.
pub fn module_file(n: u64) -> (r: String)
    ensures
        r@ == "mod"@ + decimal(n as nat) + ".ptx"@,
{
    let mut cs: Vec<char> = text::chars_of("mod");
    text::push_decimal(&mut cs, n);
    text::push_str(&mut cs, ".ptx");
    text::string_of(cs.as_slice())
}

/// The line printed for the section's `n`th module.
pub fn module_line(n: u64, bundle: &str, len: u64) -> (r: String)
    ensures
        r@ == "mod"@ + decimal(n as nat) + " bundle="@ + bundle@ + " bytes="@ + decimal(len as nat),
{
    let mut cs: Vec<char> = text::chars_of("mod");
    text::push_decimal(&mut cs, n);
    text::push_str(&mut cs, " bundle=");
    text::push_str(&mut cs, bundle);
    text::push_str(&mut cs, " bytes=");
    text::push_decimal(&mut cs, len);
    text::string_of(cs.as_slice())
}

// ------------------------------------------------------------ a saved dump

/// A byte that opens no dump: the ASCII blanks.
pub open spec fn is_blank(b: u8) -> bool {
    b == 0x20 || b == 0x09 || b == 0x0a || b == 0x0c || b == 0x0d
}

/// The bytes from the first that is no blank on.
pub open spec fn trimmed_start(b: Seq<u8>) -> Seq<u8>
    decreases b.len(),
{
    if b.len() > 0 && is_blank(b[0]) {
        trimmed_start(b.drop_first())
    } else {
        b
    }
}

/// The body of a saved dump of an entry: what follows its opening line, given
/// as bytes; none where the dump does not open with it.
pub open spec fn body_of(text: Seq<u8>, head: Seq<u8>) -> Option<Seq<u8>> {
    let t = trimmed_start(text);
    if head.len() <= t.len() && t.take(head.len() as int) == head {
        Some(t.skip(head.len() as int))
    } else {
        None
    }
}

/// Trimming a tail of a text trims the text, where only blanks stand before it.
proof fn lemma_trim_from(b: Seq<u8>, at: int)
    requires
        0 <= at <= b.len(),
        forall|i: int| 0 <= i < at ==> is_blank(#[trigger] b[i]),
    ensures
        trimmed_start(b) == trimmed_start(b.skip(at)),
    decreases at,
{
    if at > 0 {
        let rest = b.drop_first();
        assert(is_blank(b[0]));
        assert forall|i: int| 0 <= i < at - 1 implies is_blank(#[trigger] rest[i]) by {
            assert(rest[i] == b[i + 1]);
        }
        lemma_trim_from(rest, at - 1);
        assert(rest.skip(at - 1) =~= b.skip(at));
    } else {
        assert(b.skip(0) =~= b);
    }
}

/// The body of a saved single-entry dump, behind the opening line `head`.
pub fn dump_body(text: &[u8], head: &[u8]) -> (r: Option<Vec<u8>>)
    ensures
        match r {
            Some(b) => body_of(text@, head@) == Some(b@),
            None => body_of(text@, head@) is None,
        },
{
    let mut at: usize = 0;
    while at < text.len() && (text[at] == 0x20 || text[at] == 0x09 || text[at] == 0x0a || text[at]
        == 0x0c || text[at] == 0x0d)
        invariant
            at <= text@.len(),
            forall|i: int| 0 <= i < at ==> is_blank(#[trigger] text@[i]),
        decreases text@.len() - at,
    {
        at += 1;
    }
    let ghost t = text@.skip(at as int);
    proof {
        lemma_trim_from(text@, at as int);
        if at < text@.len() {
            assert(t[0] == text@[at as int]);
        }
        assert(trimmed_start(t) == t);
    }
    let n: usize = text.len();
    if n - at < head.len() {
        return None;
    }
    let mut i: usize = 0;
    while i < head.len()
        invariant
            at + head@.len() <= text@.len() == n,
            t == text@.skip(at as int),
            trimmed_start(text@) == t,
            i <= head@.len(),
            forall|j: int| 0 <= j < i ==> #[trigger] head@[j] == t[j],
        decreases head@.len() - i,
    {
        if text[at + i] != head[i] {
            assert(t.take(head@.len() as int)[i as int] == text@[at + i]);
            return None;
        }
        assert(t[i as int] == text@[at + i]);
        i += 1;
    }
    assert(t.take(head@.len() as int) =~= head@);
    let mut out: Vec<u8> = Vec::new();
    let mut j: usize = at + head.len();
    let start: usize = j;
    while j < text.len()
        invariant
            start == at + head@.len(),
            start <= j <= text@.len(),
            out@ =~= text@.subrange(start as int, j as int),
        decreases text@.len() - j,
    {
        out.push(text[j]);
        j += 1;
    }
    assert(out@ =~= t.skip(head@.len() as int));
    Some(out)
}

// ------------------------------------------------------------ the driver's lines

/// The driver's CUDA version as its two numbers.
pub fn driver_version(v: u32) -> (r: (u32, u32))
    ensures
        r == ((v / 1000) as u32, ((v % 1000) / 10) as u32),
{
    (v / 1000, v % 1000 / 10)
}

/// A card's name in one word.
pub open spec fn one_word(name: Seq<char>) -> Seq<char> {
    name.map_values(
        |c: char|
            if c == ' ' {
                '_'
            } else {
                c
            },
    )
}

/// The line that names the card and the driver's CUDA version.
pub fn card_line(name: &str, v: u32) -> (r: String)
    ensures
        r@ == "# card="@ + one_word(name@) + " cuda_driver="@ + decimal((v / 1000) as nat) + "."@
            + decimal(((v % 1000) / 10) as nat),
{
    let cs: Vec<char> = text::chars_of(name);
    let mut word: Vec<char> = Vec::new();
    let mut i: usize = 0;
    while i < cs.len()
        invariant
            i <= cs@.len(),
            word@ =~= one_word(cs@).take(i as int),
        decreases cs@.len() - i,
    {
        if cs[i] == ' ' {
            word.push('_');
        } else {
            word.push(cs[i]);
        }
        i += 1;
    }
    assert(word@ =~= one_word(name@));
    let (major, minor): (u32, u32) = driver_version(v);
    let mut out: Vec<char> = text::chars_of("# card=");
    text::push_chars(&mut out, word.as_slice());
    text::push_str(&mut out, " cuda_driver=");
    text::push_decimal(&mut out, major as u64);
    text::push_str(&mut out, ".");
    text::push_decimal(&mut out, minor as u64);
    text::string_of(out.as_slice())
}

/// The line of an entry: its registers, its local and its static shared bytes,
/// and the most threads of a block.
pub fn entry_line(name: &str, regs: u64, local: u64, shared: u64, threads: u64) -> (r: String)
    ensures
        r@ == name@ + "\t"@ + decimal(regs as nat) + "\t"@ + decimal(local as nat) + "\t"@ + decimal(
            shared as nat,
        ) + "\t"@ + decimal(threads as nat),
{
    let mut out: Vec<char> = text::chars_of(name);
    text::push_str(&mut out, "\t");
    text::push_decimal(&mut out, regs);
    text::push_str(&mut out, "\t");
    text::push_decimal(&mut out, local);
    text::push_str(&mut out, "\t");
    text::push_decimal(&mut out, shared);
    text::push_str(&mut out, "\t");
    text::push_decimal(&mut out, threads);
    text::string_of(out.as_slice())
}

/// The body of a dump is what stands behind its head, whatever blanks stand before
/// the head; where the text does not open with the head there is none.
pub proof fn law_a_body_stands_behind_its_head(
    blanks: Seq<u8>,
    head: Seq<u8>,
    rest: Seq<u8>,
    text: Seq<u8>,
)
    requires
        forall|i: int|
            0 <= i < blanks.len() ==> (#[trigger] blanks[i] == 0x20 || blanks[i] == 0x09 || blanks[i]
                == 0x0a || blanks[i] == 0x0c || blanks[i] == 0x0d),
        head.len() > 0,
        head[0] != 0x20 && head[0] != 0x09 && head[0] != 0x0a && head[0] != 0x0c && head[0] != 0x0d,
    ensures
        body_of(blanks + head + rest, head) == Some(rest),
        body_of(text, head) matches Some(b) ==> exists|n: int|
            0 <= n <= text.len() && #[trigger] text.skip(n) == head + b,
    decreases blanks.len(),
{
    let t = blanks + head + rest;
    if blanks.len() == 0 {
        assert(t =~= head + rest);
        assert(t[0] == head[0]);
        assert(t.take(head.len() as int) =~= head);
        assert(t.skip(head.len() as int) =~= rest);
    } else {
        assert(t[0] == blanks[0]);
        assert(t.drop_first() =~= blanks.drop_first() + head + rest);
        assert forall|i: int| 0 <= i < blanks.drop_first().len() implies (
        #[trigger] blanks.drop_first()[i] == 0x20 || blanks.drop_first()[i] == 0x09
            || blanks.drop_first()[i] == 0x0a || blanks.drop_first()[i] == 0x0c
            || blanks.drop_first()[i] == 0x0d) by {
            assert(blanks.drop_first()[i] == blanks[i + 1]);
        }
        law_a_body_stands_behind_its_head(blanks.drop_first(), head, rest, text);
    }
    if let Some(b) = body_of(text, head) {
        let n = lemma_trimmed_is_an_end(text);
        let u = trimmed_start(text);
        assert(u =~= head + b);
        assert(text.skip(n) == head + b);
    }
}

proof fn lemma_trimmed_is_an_end(text: Seq<u8>) -> (n: int)
    ensures
        0 <= n <= text.len(),
        text.skip(n) == trimmed_start(text),
    decreases text.len(),
{
    if text.len() > 0 && is_blank(text[0]) {
        let m = lemma_trimmed_is_an_end(text.drop_first());
        assert(text.skip(m + 1) =~= text.drop_first().skip(m));
        m + 1
    } else {
        assert(text.skip(0) =~= text);
        0
    }
}

/// A card's name becomes one word: each blank an underscore, every other character
/// kept in its place.
pub proof fn law_a_name_becomes_one_word(name: Seq<char>, i: int)
    requires
        0 <= i < name.len(),
    ensures
        one_word(name).len() == name.len(),
        one_word(name)[i] != ' ',
        name[i] != ' ' ==> one_word(name)[i] == name[i],
        name[i] == ' ' ==> one_word(name)[i] == '_',
{
}

/// A section and a directory are extracted as they are, with `--norm` normalised,
/// and `--norm-dump` takes an entry and a file; other word counts are refused.
pub proof fn law_a_command_is_its_words(a: Seq<char>, b: Seq<char>, words: Seq<Seq<char>>)
    ensures
        command_of(seq![a, b]) == Some(CommandView::Extract(a, b, false)),
        command_of(seq!["--norm"@, a, b]) == Some(CommandView::Extract(a, b, true)),
        command_of(seq!["--norm-dump"@, a, b]) == Some(CommandView::NormDump(a, b)),
        words.len() != 2 && words.len() != 3 ==> command_of(words) is None,
{
    reveal_strlit("--norm");
    reveal_strlit("--norm-dump");
    assert("--norm"@.len() == 6 && "--norm-dump"@.len() == 11);
}

} // verus!
