//! The prompt-set side of an end-to-end gate: ik's greedy answers, and the
//! comparers that judge our continuation against them.
//!
//! Both engines read token ids from the same prompt file; neither tokenizes: a
//! tokenizer difference would surface as a wrong token id and read as a kernel
//! bug.
//!
//! There are two comparers, and they answer different questions.
//!
//! [`compare_greedy`] judges a free-running continuation, and only its first
//! difference. After that difference the two continuations are conditioned on
//! different text, so every later token answers a different question and
//! carries no evidence. The cost is its sample size: one event per prompt.
//!
//! [`compare_forced`] judges a teacher-forced table, where our argmax at every
//! step was taken with the reference's own tokens fed as input. Both sides
//! then stand at the same position on the same text at every step, so every
//! step is evidence. The unit is the position, not the prompt.
//!
//! Margins are singles by their bits.
use crate::bits;
use crate::text;
use crate::text::id_list;
use crate::text::is_float_text;
use crate::text::nats;
use crate::text::number;
use crate::text::trimmed;
use vstd::prelude::*;

verus! {

/// What is wrong with a row.
#[derive(Clone, Copy, Debug, PartialEq, Eq, Structural)]
pub enum RowError {
    /// The row has not the fields of its format.
    Width,
    /// This field does not parse.
    Field(usize),
    /// The two top-5 columns do not hold five values each.
    Top5,
    /// The generated ids and their margins are not of one length.
    Lengths,
    /// The first generated id is not the row's argmax: the file is not what
    /// the generating run writes.
    Argmax,
}

/// Why a text is no table of rows.
#[derive(Clone, Copy, Debug, PartialEq, Eq, Structural)]
pub enum TableError {
    /// What is wrong with a line, lines counted from 1.
    Row(usize, RowError),
    /// The text has no row.
    NoRows,
}

/// A line that holds no row: an empty one or a comment.
pub open spec fn is_aside(line: Seq<char>) -> bool {
    line.len() == 0 || line[0] == '#'
}

// ------------------------------------------------------------ prompts

/// One row of the prompt file: `id <TAB> text <TAB> comma-separated token ids`
/// (comments start with `#`).
#[derive(Debug, Clone)]
pub struct PromptRow {
    pub id: usize,
    pub text: String,
    pub tokens: Vec<u32>,
}

/// What a prompt row says: its id, its text and its token ids.
pub open spec fn prompt_view(r: PromptRow) -> (nat, Seq<char>, Seq<nat>) {
    (r.id as nat, r.text@, nats(r.tokens@))
}

/// What a line says as a prompt row.
pub open spec fn prompt_of(line: Seq<char>) -> Result<(nat, Seq<char>, Seq<nat>), RowError> {
    let f = text::split(line, '\t');
    if f.len() != 3 {
        Err(RowError::Width)
    } else if id_list(f[2], true) is None {
        Err(RowError::Field(2))
    } else if number(trimmed(f[0]), usize::MAX as nat) is None {
        Err(RowError::Field(0))
    } else {
        Ok((number(trimmed(f[0]), usize::MAX as nat)->0, f[1], id_list(f[2], true)->0))
    }
}

/// What lines say as prompt rows, or the first wrong line, counted from 0.
pub open spec fn prompts_of(lines: Seq<Seq<char>>) -> Result<
    Seq<(nat, Seq<char>, Seq<nat>)>,
    (int, RowError),
>
    decreases lines.len(),
{
    if lines.len() == 0 {
        Ok(seq![])
    } else {
        match prompts_of(lines.drop_last()) {
            Err(e) => Err(e),
            Ok(rows) => if is_aside(lines.last()) {
                Ok(rows)
            } else {
                match prompt_of(lines.last()) {
                    Ok(row) => Ok(rows.push(row)),
                    Err(e) => Err((lines.len() - 1, e)),
                }
            },
        }
    }
}

/// What rows say.
pub open spec fn prompt_views(rows: Seq<PromptRow>) -> Seq<(nat, Seq<char>, Seq<nat>)> {
    rows.map_values(|r: PromptRow| prompt_view(r))
}

proof fn lemma_prompt_error_stays(lines: Seq<Seq<char>>, i: int)
    requires
        0 <= i <= lines.len(),
        prompts_of(lines.take(i)) is Err,
    ensures
        prompts_of(lines) == prompts_of(lines.take(i)),
    decreases lines.len() - i,
{
    if i < lines.len() {
        assert(lines.take(i + 1).drop_last() =~= lines.take(i));
        lemma_prompt_error_stays(lines, i + 1);
    } else {
        assert(lines.take(i) =~= lines);
    }
}

/// The number a trimmed field writes.
fn index_field(f: &Vec<Vec<char>>, i: usize) -> (r: Result<usize, RowError>)
    requires
        i < f@.len(),
    ensures
        match r {
            Ok(n) => number(trimmed(text::pieces(f@)[i as int]), usize::MAX as nat) == Some(
                n as nat,
            ),
            Err(e) => number(trimmed(text::pieces(f@)[i as int]), usize::MAX as nat) is None && e
                == RowError::Field(i),
        },
{
    match text::parse_number(text::trim(f[i].as_slice()).as_slice(), usize::MAX as u64) {
        Some(n) => Ok(n as usize),
        None => Err(RowError::Field(i)),
    }
}

/// The ids a field lists.
fn ids_field(f: &Vec<Vec<char>>, i: usize) -> (r: Result<Vec<u32>, RowError>)
    requires
        i < f@.len(),
    ensures
        match r {
            Ok(v) => id_list(text::pieces(f@)[i as int], true) == Some(nats(v@)),
            Err(e) => id_list(text::pieces(f@)[i as int], true) is None && e == RowError::Field(i),
        },
{
    match text::parse_ids(f[i].as_slice(), true) {
        Some(v) => Ok(v),
        None => Err(RowError::Field(i)),
    }
}

/// One prompt row.
fn parse_prompt(line: &[char]) -> (r: Result<PromptRow, RowError>)
    ensures
        match r {
            Ok(row) => prompt_of(line@) == Ok::<(nat, Seq<char>, Seq<nat>), RowError>(
                prompt_view(row),
            ),
            Err(e) => prompt_of(line@) == Err::<(nat, Seq<char>, Seq<nat>), RowError>(e),
        },
{
    let f: Vec<Vec<char>> = text::split_at_each(line, '\t');
    if f.len() != 3 {
        return Err(RowError::Width);
    }
    assert(text::pieces(f@)[1] == f@[1]@);
    let tokens: Vec<u32> = ids_field(&f, 2)?;
    let id: usize = index_field(&f, 0)?;
    Ok(PromptRow { id, text: text::string_of(f[1].as_slice()), tokens })
}

/// The prompt file's rows in file order. Comment and empty lines are skipped;
/// any other line must be the three tab-separated fields.
pub fn read_prompts(s: &str) -> (r: Result<Vec<PromptRow>, TableError>)
    ensures
        match r {
            Ok(rows) => rows@.len() > 0 && prompts_of(text::lines(s@)) == Ok::<
                Seq<(nat, Seq<char>, Seq<nat>)>,
                (int, RowError),
            >(prompt_views(rows@)),
            Err(TableError::Row(i, e)) => i > 0 && prompts_of(text::lines(s@)) == Err::<
                Seq<(nat, Seq<char>, Seq<nat>)>,
                (int, RowError),
            >((i - 1, e)),
            Err(TableError::NoRows) => prompts_of(text::lines(s@)) == Ok::<
                Seq<(nat, Seq<char>, Seq<nat>)>,
                (int, RowError),
            >(seq![]),
        },
{
    let lines: Vec<Vec<char>> = text::lines_of(text::chars_of(s).as_slice());
    let ghost all = text::lines(s@);
    let mut rows: Vec<PromptRow> = Vec::new();
    let mut i: usize = 0;
    assert(all.take(0) =~= seq![]);
    assert(prompt_views(rows@) =~= seq![]);
    while i < lines.len()
        invariant
            i <= lines@.len(),
            text::pieces(lines@) == all,
            all == text::lines(s@),
            prompts_of(all.take(i as int)) == Ok::<
                Seq<(nat, Seq<char>, Seq<nat>)>,
                (int, RowError),
            >(prompt_views(rows@)),
        decreases lines@.len() - i,
    {
        proof {
            assert(all.take(i + 1).drop_last() =~= all.take(i as int));
            assert(all.take(i + 1).last() == lines@[i as int]@);
        }
        let line: &[char] = lines[i].as_slice();
        if line.len() > 0 && line[0] != '#' {
            match parse_prompt(line) {
                Err(e) => {
                    proof {
                        lemma_prompt_error_stays(all, i + 1);
                    }
                    return Err(TableError::Row(i + 1, e));
                },
                Ok(row) => {
                    let ghost held = prompt_views(rows@);
                    let ghost added = prompt_view(row);
                    rows.push(row);
                    assert(prompt_views(rows@) =~= held.push(added));
                },
            }
        }
        i += 1;
    }
    assert(all.take(all.len() as int) =~= all);
    if rows.len() == 0 {
        assert(prompt_views(rows@) =~= seq![]);
        return Err(TableError::NoRows);
    }
    Ok(rows)
}

// ------------------------------------------------------------ greedy rows

/// One data row of a greedy reference file.
///
/// `gen_ids` is the greedy continuation starting at the prompt's argmax
/// (`gen_ids[0] == argmax`), one entry per step. A continuation that stopped on
/// EOS is shorter: the EOS token itself is recorded and the shorter length is
/// the record of the stop. `gen_margins` is each step's top1-top2 logit margin,
/// one entry per generated token.
#[derive(Debug, Clone)]
pub struct GreedyRow {
    pub id: usize,
    pub n_tokens: usize,
    pub argmax: u32,
    pub top5: Vec<u32>,
    pub gen_ids: Vec<u32>,
    pub gen_margins: Vec<u32>,
}

/// A greedy row as its line writes it: the margins still text.
#[derive(Debug, Clone)]
pub struct GreedyText {
    pub id: usize,
    pub n_tokens: usize,
    pub argmax: u32,
    pub top5: Vec<u32>,
    pub gen_ids: Vec<u32>,
    pub margins: Vec<String>,
}

/// What a greedy row's line says.
pub ghost struct GreedyView {
    pub id: nat,
    pub n_tokens: nat,
    pub argmax: nat,
    pub top5: Seq<nat>,
    pub gen_ids: Seq<nat>,
    pub margins: Seq<Seq<char>>,
}

impl View for GreedyText {
    type V = GreedyView;

    open spec fn view(&self) -> GreedyView {
        GreedyView {
            id: self.id as nat,
            n_tokens: self.n_tokens as nat,
            argmax: self.argmax as nat,
            top5: nats(self.top5@),
            gen_ids: nats(self.gen_ids@),
            margins: text::strings(self.margins@),
        }
    }
}

/// Every piece writes a floating-point number, whitespace around it allowed.
pub open spec fn all_floats(parts: Seq<Seq<char>>) -> bool {
    forall|i: int| 0 <= i < parts.len() ==> is_float_text(trimmed(#[trigger] parts[i]))
}

/// The numbers a comma-separated list writes, as text: `None` where a piece
/// writes none.
pub open spec fn float_list(s: Seq<char>) -> Option<Seq<Seq<char>>> {
    if all_floats(text::split(s, ',')) {
        Some(text::all_trimmed(text::split(s, ',')))
    } else {
        None
    }
}

/// What a line says as a greedy row: seven columns, `id n_tokens argmax
/// top5_ids top5_logits gen_ids gen_margins`. A five-column argmax file is a
/// different artifact and is refused, not read as zero generated tokens.
pub open spec fn greedy_of(line: Seq<char>) -> Result<GreedyView, RowError> {
    let f = text::split(line, '\t');
    if f.len() != 7 {
        Err(RowError::Width)
    } else if id_list(f[3], true) is None {
        Err(RowError::Field(3))
    } else if float_list(f[4]) is None {
        Err(RowError::Field(4))
    } else if id_list(f[5], true) is None {
        Err(RowError::Field(5))
    } else if float_list(f[6]) is None {
        Err(RowError::Field(6))
    } else if id_list(f[3], true)->0.len() != 5 || float_list(f[4])->0.len() != 5 {
        Err(RowError::Top5)
    } else if id_list(f[5], true)->0.len() != float_list(f[6])->0.len() {
        Err(RowError::Lengths)
    } else if number(trimmed(f[2]), u32::MAX as nat) is None {
        Err(RowError::Field(2))
    } else if id_list(f[5], true)->0[0] != number(trimmed(f[2]), u32::MAX as nat)->0 {
        Err(RowError::Argmax)
    } else if number(trimmed(f[0]), usize::MAX as nat) is None {
        Err(RowError::Field(0))
    } else if number(trimmed(f[1]), usize::MAX as nat) is None {
        Err(RowError::Field(1))
    } else {
        Ok(
            GreedyView {
                id: number(trimmed(f[0]), usize::MAX as nat)->0,
                n_tokens: number(trimmed(f[1]), usize::MAX as nat)->0,
                argmax: number(trimmed(f[2]), u32::MAX as nat)->0,
                top5: id_list(f[3], true)->0,
                gen_ids: id_list(f[5], true)->0,
                margins: float_list(f[6])->0,
            },
        )
    }
}

/// What lines say as greedy rows, or the first wrong line, counted from 0.
pub open spec fn greedies_of(lines: Seq<Seq<char>>) -> Result<Seq<GreedyView>, (int, RowError)>
    decreases lines.len(),
{
    if lines.len() == 0 {
        Ok(seq![])
    } else {
        match greedies_of(lines.drop_last()) {
            Err(e) => Err(e),
            Ok(rows) => if is_aside(lines.last()) {
                Ok(rows)
            } else {
                match greedy_of(lines.last()) {
                    Ok(row) => Ok(rows.push(row)),
                    Err(e) => Err((lines.len() - 1, e)),
                }
            },
        }
    }
}

/// What rows say.
pub open spec fn greedy_views(rows: Seq<GreedyText>) -> Seq<GreedyView> {
    rows.map_values(|r: GreedyText| r@)
}

proof fn lemma_greedy_error_stays(lines: Seq<Seq<char>>, i: int)
    requires
        0 <= i <= lines.len(),
        greedies_of(lines.take(i)) is Err,
    ensures
        greedies_of(lines) == greedies_of(lines.take(i)),
    decreases lines.len() - i,
{
    if i < lines.len() {
        assert(lines.take(i + 1).drop_last() =~= lines.take(i));
        lemma_greedy_error_stays(lines, i + 1);
    } else {
        assert(lines.take(i) =~= lines);
    }
}

/// A list of ids has one id per piece.
proof fn lemma_ids_len(parts: Seq<Seq<char>>, max: nat)
    ensures
        text::numbers(parts, max) matches Some(v) ==> v.len() == parts.len(),
    decreases parts.len(),
{
    if parts.len() > 0 {
        lemma_ids_len(parts.drop_last(), max);
    }
}

/// The numbers a field lists, as text.
fn floats_field(f: &Vec<Vec<char>>, i: usize) -> (r: Result<Vec<String>, RowError>)
    requires
        i < f@.len(),
    ensures
        match r {
            Ok(v) => float_list(text::pieces(f@)[i as int]) == Some(text::strings(v@)),
            Err(e) => float_list(text::pieces(f@)[i as int]) is None && e == RowError::Field(i),
        },
{
    let parts: Vec<Vec<char>> = text::split_at_each(f[i].as_slice(), ',');
    assert(text::pieces(f@)[i as int] == f@[i as int]@);
    let ghost all = text::split(f@[i as int]@, ',');
    let mut out: Vec<String> = Vec::new();
    let mut k: usize = 0;
    while k < parts.len()
        invariant
            k <= parts@.len(),
            text::pieces(parts@) == all,
            all == text::split(f@[i as int]@, ','),
            i < f@.len(),
            text::pieces(f@)[i as int] == f@[i as int]@,
            forall|m: int| 0 <= m < k ==> is_float_text(trimmed(#[trigger] all[m])),
            text::strings(out@) =~= text::all_trimmed(all).take(k as int),
        decreases parts@.len() - k,
    {
        let t: Vec<char> = text::trim(parts[k].as_slice());
        assert(all[k as int] == parts@[k as int]@);
        if !text::float_text(t.as_slice()) {
            return Err(RowError::Field(i));
        }
        let s: String = text::string_of(t.as_slice());
        let ghost held = text::strings(out@);
        let ghost added = s@;
        out.push(s);
        assert(text::strings(out@) =~= held.push(added));
        k += 1;
    }
    assert(text::all_trimmed(all).take(all.len() as int) =~= text::all_trimmed(all));
    Ok(out)
}

/// One greedy row.
fn parse_greedy(line: &[char]) -> (r: Result<GreedyText, RowError>)
    ensures
        match r {
            Ok(row) => greedy_of(line@) == Ok::<GreedyView, RowError>(row@),
            Err(e) => greedy_of(line@) == Err::<GreedyView, RowError>(e),
        },
{
    let f: Vec<Vec<char>> = text::split_at_each(line, '\t');
    if f.len() != 7 {
        return Err(RowError::Width);
    }
    let ghost t = text::pieces(f@);
    let top5: Vec<u32> = ids_field(&f, 3)?;
    let logits: Vec<String> = floats_field(&f, 4)?;
    let gen_ids: Vec<u32> = ids_field(&f, 5)?;
    let margins: Vec<String> = floats_field(&f, 6)?;
    proof {
        assert(nats(top5@).len() == top5@.len());
        assert(text::strings(logits@).len() == logits@.len());
        assert(nats(gen_ids@).len() == gen_ids@.len());
        assert(text::strings(margins@).len() == margins@.len());
        lemma_ids_len(text::all_trimmed(text::split(t[5], ',')), u32::MAX as nat);
        text::lemma_split_nonempty(t[5], ',');
    }
    if top5.len() != 5 || logits.len() != 5 {
        return Err(RowError::Top5);
    }
    if gen_ids.len() != margins.len() {
        return Err(RowError::Lengths);
    }
    assert(t[2] == f@[2]@);
    let argmax: u32 = match text::parse_number(
        text::trim(f[2].as_slice()).as_slice(),
        u32::MAX as u64,
    ) {
        Some(n) => n as u32,
        None => {
            return Err(RowError::Field(2));
        },
    };
    assert(nats(gen_ids@)[0] == gen_ids@[0]);
    if gen_ids[0] != argmax {
        return Err(RowError::Argmax);
    }
    let id: usize = index_field(&f, 0)?;
    let n_tokens: usize = index_field(&f, 1)?;
    Ok(GreedyText { id, n_tokens, argmax, top5, gen_ids, margins })
}

/// Greedy reference rows in file order. Enforces the writer's own duplication
/// contract, `gen_ids[0] == argmax`, so a truncated or hand-edited file fails
/// here instead of at the verdict.
pub fn read_greedy(s: &str) -> (r: Result<Vec<GreedyText>, TableError>)
    ensures
        match r {
            Ok(rows) => rows@.len() > 0 && greedies_of(text::lines(s@)) == Ok::<
                Seq<GreedyView>,
                (int, RowError),
            >(greedy_views(rows@)),
            Err(TableError::Row(i, e)) => i > 0 && greedies_of(text::lines(s@)) == Err::<
                Seq<GreedyView>,
                (int, RowError),
            >((i - 1, e)),
            Err(TableError::NoRows) => greedies_of(text::lines(s@)) == Ok::<
                Seq<GreedyView>,
                (int, RowError),
            >(seq![]),
        },
{
    let lines: Vec<Vec<char>> = text::lines_of(text::chars_of(s).as_slice());
    let ghost all = text::lines(s@);
    let mut rows: Vec<GreedyText> = Vec::new();
    let mut i: usize = 0;
    assert(all.take(0) =~= seq![]);
    assert(greedy_views(rows@) =~= seq![]);
    while i < lines.len()
        invariant
            i <= lines@.len(),
            text::pieces(lines@) == all,
            all == text::lines(s@),
            greedies_of(all.take(i as int)) == Ok::<Seq<GreedyView>, (int, RowError)>(
                greedy_views(rows@),
            ),
        decreases lines@.len() - i,
    {
        proof {
            assert(all.take(i + 1).drop_last() =~= all.take(i as int));
            assert(all.take(i + 1).last() == lines@[i as int]@);
        }
        let line: &[char] = lines[i].as_slice();
        if line.len() > 0 && line[0] != '#' {
            match parse_greedy(line) {
                Err(e) => {
                    proof {
                        lemma_greedy_error_stays(all, i + 1);
                    }
                    return Err(TableError::Row(i + 1, e));
                },
                Ok(row) => {
                    let ghost held = greedy_views(rows@);
                    let ghost added = row@;
                    rows.push(row);
                    assert(greedy_views(rows@) =~= held.push(added));
                },
            }
        }
        i += 1;
    }
    assert(all.take(all.len() as int) =~= all);
    if rows.len() == 0 {
        assert(greedy_views(rows@) =~= seq![]);
        return Err(TableError::NoRows);
    }
    Ok(rows)
}

// ------------------------------------------------------------ free running

/// The verdict for one prompt's continuation.
#[derive(Debug, Clone, Copy, PartialEq, Eq, Structural)]
pub enum GreedyClass {
    /// No difference over the compared span (the shorter of the two
    /// continuations). Lengths still ride along in the row: a span that
    /// matches while one side ran past the other's EOS is Identical here and
    /// is the consumer's stopping contract to judge, not this comparer's.
    Identical,
    /// The first difference sits where the reference's own top1-top2 margin is
    /// under the floor: a legitimate near-tie flip, not a fault.
    NearTie,
    /// The first difference sits where the reference was clear by at least the
    /// floor.
    Diverged,
}

/// [`compare_greedy`]'s per-prompt row.
#[derive(Debug, Clone, Copy, PartialEq, Eq, Structural)]
pub struct GreedyPromptResult {
    pub id: usize,
    /// First index where the tokens differ, `None` when they never do over the
    /// compared span.
    pub first_diff: Option<usize>,
    /// The reference's top1-top2 margin at `first_diff`, `None` when
    /// `first_diff` is `None`.
    pub ref_margin: Option<u32>,
    pub class: GreedyClass,
    /// The continuation's token count and the reference's `gen_ids` length.
    pub n_ours: usize,
    pub n_ref: usize,
}

/// The whole set: one row per prompt plus the class totals.
#[derive(Debug, Clone)]
pub struct GreedyReport {
    pub rows: Vec<GreedyPromptResult>,
    pub n_identical: usize,
    pub n_near_tie: usize,
    pub n_diverged: usize,
}

/// The span two lists are compared over: the shorter of them.
pub open spec fn span(a: Seq<u32>, b: Seq<u32>) -> int {
    bits::shorter(a, b)
}

/// The first difference from `at` on below `n`.
pub open spec fn first_diff(a: Seq<u32>, b: Seq<u32>, n: int, at: int) -> Option<int>
    decreases n - at,
{
    if at < 0 || at >= n {
        None
    } else if a[at] != b[at] {
        Some(at)
    } else {
        first_diff(a, b, n, at + 1)
    }
}

/// Every row has a margin for each of its generated tokens.
pub open spec fn margins_cover(rows: Seq<GreedyRow>) -> bool {
    forall|i: int|
        0 <= i < rows.len() ==> (#[trigger] rows[i]).gen_ids@.len() <= rows[i].gen_margins@.len()
}

/// How one continuation is judged.
pub open spec fn judged(cont: Seq<u32>, r: GreedyRow, floor: u32) -> GreedyPromptResult {
    let d = first_diff(cont, r.gen_ids@, span(cont, r.gen_ids@), 0);
    GreedyPromptResult {
        id: r.id,
        first_diff: match d {
            Some(i) => Some(i as usize),
            None => None,
        },
        ref_margin: match d {
            Some(i) => Some(r.gen_margins@[i]),
            None => None,
        },
        class: match d {
            None => GreedyClass::Identical,
            Some(i) => if bits::less(r.gen_margins@[i], floor) {
                GreedyClass::NearTie
            } else {
                GreedyClass::Diverged
            },
        },
        n_ours: cont.len() as usize,
        n_ref: r.gen_ids@.len() as usize,
    }
}

/// The rows of a class.
pub open spec fn of_class(rows: Seq<GreedyPromptResult>, class: GreedyClass) -> nat
    decreases rows.len(),
{
    if rows.len() == 0 {
        0
    } else if rows.last().class == class {
        of_class(rows.drop_last(), class) + 1
    } else {
        of_class(rows.drop_last(), class)
    }
}

/// Judge our greedy continuations against the reference, prompt by prompt.
///
/// `ours[i]` is our continuation for `reference[i]`, indexed like `gen_ids`
/// (element 0 is the prompt's next token). Only the first difference is judged.
/// A reference row that stopped early on EOS is compared over its own, shorter
/// length. Every reference row must be answered: silently skipping some would
/// under-report divergences.
pub fn compare_greedy(
    ours: &[Vec<u32>],
    reference: &[GreedyRow],
    margin_floor: u32,
) -> (r: GreedyReport)
    requires
        ours@.len() == reference@.len(),
        margins_cover(reference@),
    ensures
        r.rows@.len() == reference@.len(),
        forall|i: int|
            0 <= i < reference@.len() ==> #[trigger] r.rows@[i] == judged(
                ours@[i]@,
                reference@[i],
                margin_floor,
            ),
        r.n_identical == of_class(r.rows@, GreedyClass::Identical),
        r.n_near_tie == of_class(r.rows@, GreedyClass::NearTie),
        r.n_diverged == of_class(r.rows@, GreedyClass::Diverged),
{
    let mut rows: Vec<GreedyPromptResult> = Vec::new();
    let mut n_identical: usize = 0;
    let mut n_near_tie: usize = 0;
    let mut n_diverged: usize = 0;
    let mut i: usize = 0;
    while i < reference.len()
        invariant
            i <= reference@.len() == ours@.len(),
            margins_cover(reference@),
            rows@.len() == i,
            n_identical <= i,
            n_near_tie <= i,
            n_diverged <= i,
            forall|k: int|
                0 <= k < i ==> #[trigger] rows@[k] == judged(
                    ours@[k]@,
                    reference@[k],
                    margin_floor,
                ),
            n_identical == of_class(rows@, GreedyClass::Identical),
            n_near_tie == of_class(rows@, GreedyClass::NearTie),
            n_diverged == of_class(rows@, GreedyClass::Diverged),
        decreases reference@.len() - i,
    {
        let cont: &Vec<u32> = &ours[i];
        let r: &GreedyRow = &reference[i];
        let n: usize = if cont.len() <= r.gen_ids.len() {
            cont.len()
        } else {
            r.gen_ids.len()
        };
        let mut k: usize = 0;
        while k < n && cont[k] == r.gen_ids[k]
            invariant
                k <= n == span(cont@, r.gen_ids@),
                n <= cont@.len(),
                n <= r.gen_ids@.len(),
                first_diff(cont@, r.gen_ids@, n as int, 0) == first_diff(
                    cont@,
                    r.gen_ids@,
                    n as int,
                    k as int,
                ),
            decreases n - k,
        {
            k += 1;
        }
        let row: GreedyPromptResult = if k == n {
            n_identical += 1;
            GreedyPromptResult {
                id: r.id,
                first_diff: None,
                ref_margin: None,
                class: GreedyClass::Identical,
                n_ours: cont.len(),
                n_ref: r.gen_ids.len(),
            }
        } else {
            let m: u32 = r.gen_margins[k];
            let class: GreedyClass = if bits::is_less(m, margin_floor) {
                n_near_tie += 1;
                GreedyClass::NearTie
            } else {
                n_diverged += 1;
                GreedyClass::Diverged
            };
            GreedyPromptResult {
                id: r.id,
                first_diff: Some(k),
                ref_margin: Some(m),
                class,
                n_ours: cont.len(),
                n_ref: r.gen_ids.len(),
            }
        };
        let ghost held = rows@;
        rows.push(row);
        assert(rows@.drop_last() =~= held);
        i += 1;
    }
    GreedyReport { rows, n_identical, n_near_tie, n_diverged }
}

/// Every row is of one class: the totals add up to the rows.
pub proof fn law_classes_partition_the_rows(rows: Seq<GreedyPromptResult>)
    ensures
        of_class(rows, GreedyClass::Identical) + of_class(rows, GreedyClass::NearTie) + of_class(
            rows,
            GreedyClass::Diverged,
        ) == rows.len(),
    decreases rows.len(),
{
    if rows.len() > 0 {
        law_classes_partition_the_rows(rows.drop_last());
    }
}

/// What happens past the first difference never enters the class: two
/// continuations of one length that agree up to and at the first difference
/// from the reference are judged alike.
pub proof fn law_only_the_first_difference_counts(
    a: Seq<u32>,
    b: Seq<u32>,
    r: GreedyRow,
    floor: u32,
)
    requires
        a.len() == b.len(),
        first_diff(a, r.gen_ids@, span(a, r.gen_ids@), 0) is Some,
        forall|k: int|
            0 <= k <= first_diff(a, r.gen_ids@, span(a, r.gen_ids@), 0)->0 ==> a[k] == b[k],
    ensures
        judged(a, r, floor) == judged(b, r, floor),
{
    lemma_same_first_diff(a, b, r.gen_ids@, span(a, r.gen_ids@), 0);
}

proof fn lemma_same_first_diff(a: Seq<u32>, b: Seq<u32>, c: Seq<u32>, n: int, at: int)
    requires
        0 <= at,
        first_diff(a, c, n, at) is Some,
        forall|k: int| 0 <= k <= first_diff(a, c, n, at)->0 ==> a[k] == b[k],
    ensures
        first_diff(b, c, n, at) == first_diff(a, c, n, at),
        at <= first_diff(a, c, n, at)->0,
    decreases n - at,
{
    if at < n && a[at] == c[at] {
        lemma_same_first_diff(a, b, c, n, at + 1);
    }
}

// ------------------------------------------------------------ teacher forced

/// One teacher-forced position: our argmax where the reference's own path was
/// fed, against the reference's token there and its margin.
#[derive(Debug, Clone, Copy, PartialEq, Eq, Structural)]
pub struct ForcedPos {
    /// The prompt's id, from the reference row.
    pub id: usize,
    /// The step inside the continuation, indexed like `gen_ids`.
    pub step: usize,
    /// Our argmax at that step.
    pub ours: u32,
    /// The reference's token there.
    pub theirs: u32,
    /// The reference's own top1-top2 margin at that step.
    pub ref_margin: u32,
}

/// [`compare_forced`]'s whole-set result.
#[derive(Debug, Clone)]
pub struct ForcedReport {
    /// Positions compared: the sum over rows of the shorter of the two
    /// lengths. The denominator of every count below.
    pub positions: usize,
    /// Every position where our argmax is not the reference's token, in row
    /// then step order.
    pub disagree: Vec<ForcedPos>,
    /// Disagreements by reference margin, cut at 0.1, 0.5 and 1. A margin
    /// exactly on an edge falls in the upper bucket.
    pub buckets: [usize; 4],
    /// Disagreements whose reference margin is at least the floor: the ones
    /// the reference itself was clear about, and the decision quantity.
    pub disagree_ge_floor: usize,
    /// The largest reference margin at any disagreement, `None` when there are
    /// none.
    pub max_margin: Option<u32>,
}

/// `a >= b` of two singles: false where either is NaN.
pub open spec fn at_least(a: u32, b: u32) -> bool {
    !bits::nan(a) && !bits::nan(b) && bits::order_key(a) >= bits::order_key(b)
}

/// Whether `a >= b`.
fn is_at_least(a: u32, b: u32) -> (r: bool)
    ensures
        r == at_least(a, b),
{
    !bits::is_nan(a) && !bits::is_nan(b) && !bits::is_less(a, b)
}

/// The edges of the margin buckets, as half-open lower bounds: 0.1, 0.5 and 1.
/// Fixed, not derived from the floor: the shape of the disagreement
/// distribution is what the reader wants, and it must not move when a
/// threshold does.
pub const FORCED_BUCKETS: [u32; 3] = [0x3dcc_cccd, 0x3f00_0000, 0x3f80_0000];

/// The bucket of a margin: how many edges it reaches.
pub open spec fn bucket_of(m: u32) -> int {
    (if at_least(m, 0x3dcc_cccd) {
        1int
    } else {
        0
    }) + (if at_least(m, 0x3f00_0000) {
        1int
    } else {
        0
    }) + (if at_least(m, 0x3f80_0000) {
        1int
    } else {
        0
    })
}

/// The larger of two margins; a NaN gives way to the other.
pub open spec fn larger(a: u32, b: u32) -> u32 {
    if bits::nan(a) {
        b
    } else if bits::nan(b) || bits::order_key(a) >= bits::order_key(b) {
        a
    } else {
        b
    }
}

/// The disagreements of one row over its first `n` steps.
pub open spec fn row_disagrees(table: Seq<u32>, r: GreedyRow, n: int) -> Seq<ForcedPos>
    decreases n,
{
    if n <= 0 {
        seq![]
    } else {
        let before = row_disagrees(table, r, n - 1);
        if table[n - 1] != r.gen_ids@[n - 1] {
            before.push(
                ForcedPos {
                    id: r.id,
                    step: (n - 1) as usize,
                    ours: table[n - 1],
                    theirs: r.gen_ids@[n - 1],
                    ref_margin: r.gen_margins@[n - 1],
                },
            )
        } else {
            before
        }
    }
}

/// The disagreements of the first `k` rows.
pub open spec fn disagrees(ours: Seq<Vec<u32>>, rows: Seq<GreedyRow>, k: int) -> Seq<ForcedPos>
    decreases k,
{
    if k <= 0 {
        seq![]
    } else {
        disagrees(ours, rows, k - 1) + row_disagrees(
            ours[k - 1]@,
            rows[k - 1],
            span(ours[k - 1]@, rows[k - 1].gen_ids@),
        )
    }
}

/// The positions compared in the first `k` rows.
pub open spec fn compared(ours: Seq<Vec<u32>>, rows: Seq<GreedyRow>, k: int) -> int
    decreases k,
{
    if k <= 0 {
        0
    } else {
        compared(ours, rows, k - 1) + span(ours[k - 1]@, rows[k - 1].gen_ids@)
    }
}

/// The disagreements in a bucket.
pub open spec fn in_bucket(d: Seq<ForcedPos>, b: int) -> nat
    decreases d.len(),
{
    if d.len() == 0 {
        0
    } else if bucket_of(d.last().ref_margin) == b {
        in_bucket(d.drop_last(), b) + 1
    } else {
        in_bucket(d.drop_last(), b)
    }
}

/// The disagreements whose margin is at least the floor.
pub open spec fn clear(d: Seq<ForcedPos>, floor: u32) -> nat
    decreases d.len(),
{
    if d.len() == 0 {
        0
    } else if at_least(d.last().ref_margin, floor) {
        clear(d.drop_last(), floor) + 1
    } else {
        clear(d.drop_last(), floor)
    }
}

/// The largest margin of the disagreements.
pub open spec fn largest_margin(d: Seq<ForcedPos>) -> Option<u32>
    decreases d.len(),
{
    if d.len() == 0 {
        None
    } else {
        match largest_margin(d.drop_last()) {
            None => Some(d.last().ref_margin),
            Some(m) => Some(larger(m, d.last().ref_margin)),
        }
    }
}

proof fn lemma_compared_grows(ours: Seq<Vec<u32>>, rows: Seq<GreedyRow>, i: int, k: int)
    requires
        0 <= i <= k,
    ensures
        0 <= compared(ours, rows, i) <= compared(ours, rows, k),
    decreases k,
{
    if i < k {
        lemma_compared_grows(ours, rows, i, k - 1);
    } else if k > 0 {
        lemma_compared_grows(ours, rows, i - 1, k - 1);
    }
}

/// Judge our teacher-forced argmaxes against the reference, position by
/// position.
///
/// `ours[i][s]` must be our argmax for `reference[i]` at step `s` taken with
/// `reference[i].gen_ids[..s]` fed as input: the reference's path, not our own.
/// A row is compared over the shorter of the two lengths, the same convention
/// [`compare_greedy`] holds for a reference row that stopped early on EOS.
/// Every reference row must be answered.
#[must_use]
pub fn compare_forced(
    ours: &[Vec<u32>],
    reference: &[GreedyRow],
    margin_floor: u32,
) -> (r: ForcedReport)
    requires
        ours@.len() == reference@.len(),
        margins_cover(reference@),
        compared(ours@, reference@, reference@.len() as int) <= usize::MAX,
    ensures
        r.positions == compared(ours@, reference@, reference@.len() as int),
        r.disagree@ == disagrees(ours@, reference@, reference@.len() as int),
        forall|b: int| 0 <= b < 4 ==> #[trigger] r.buckets@[b] == in_bucket(r.disagree@, b),
        r.disagree_ge_floor == clear(r.disagree@, margin_floor),
        r.max_margin == largest_margin(r.disagree@),
{
    let mut positions: usize = 0;
    let mut disagree: Vec<ForcedPos> = Vec::new();
    let mut b0: usize = 0;
    let mut b1: usize = 0;
    let mut b2: usize = 0;
    let mut b3: usize = 0;
    let mut ge_floor: usize = 0;
    let mut max_margin: Option<u32> = None;
    let mut i: usize = 0;
    while i < reference.len()
        invariant
            i <= reference@.len() == ours@.len(),
            margins_cover(reference@),
            compared(ours@, reference@, reference@.len() as int) <= usize::MAX,
            positions == compared(ours@, reference@, i as int),
            disagree@ == disagrees(ours@, reference@, i as int),
            disagree@.len() <= positions,
            b0 == in_bucket(disagree@, 0) && b0 <= disagree@.len(),
            b1 == in_bucket(disagree@, 1) && b1 <= disagree@.len(),
            b2 == in_bucket(disagree@, 2) && b2 <= disagree@.len(),
            b3 == in_bucket(disagree@, 3) && b3 <= disagree@.len(),
            ge_floor == clear(disagree@, margin_floor) && ge_floor <= disagree@.len(),
            max_margin == largest_margin(disagree@),
        decreases reference@.len() - i,
    {
        let table: &Vec<u32> = &ours[i];
        let r: &GreedyRow = &reference[i];
        let n: usize = if table.len() <= r.gen_ids.len() {
            table.len()
        } else {
            r.gen_ids.len()
        };
        let ghost before = disagree@;
        proof {
            lemma_compared_grows(ours@, reference@, i + 1, reference@.len() as int);
            assert(before + row_disagrees(table@, *r, 0) =~= before);
        }
        let mut step: usize = 0;
        while step < n
            invariant
                step <= n == span(table@, r.gen_ids@),
                n <= table@.len(),
                n <= r.gen_ids@.len(),
                r.gen_ids@.len() <= r.gen_margins@.len(),
                before.len() <= positions,
                positions + n <= usize::MAX,
                disagree@ == before + row_disagrees(table@, *r, step as int),
                disagree@.len() <= positions + step,
                b0 == in_bucket(disagree@, 0) && b0 <= disagree@.len(),
                b1 == in_bucket(disagree@, 1) && b1 <= disagree@.len(),
                b2 == in_bucket(disagree@, 2) && b2 <= disagree@.len(),
                b3 == in_bucket(disagree@, 3) && b3 <= disagree@.len(),
                ge_floor == clear(disagree@, margin_floor) && ge_floor <= disagree@.len(),
                max_margin == largest_margin(disagree@),
            decreases n - step,
        {
            if table[step] != r.gen_ids[step] {
                let m: u32 = r.gen_margins[step];
                let mut b: usize = 0;
                if is_at_least(m, 0x3dcc_cccd) {
                    b += 1;
                }
                if is_at_least(m, 0x3f00_0000) {
                    b += 1;
                }
                if is_at_least(m, 0x3f80_0000) {
                    b += 1;
                }
                let ghost held = disagree@;
                disagree.push(
                    ForcedPos {
                        id: r.id,
                        step,
                        ours: table[step],
                        theirs: r.gen_ids[step],
                        ref_margin: m,
                    },
                );
                proof {
                    assert(disagree@.drop_last() =~= held);
                    assert(disagree@ =~= before + row_disagrees(table@, *r, step + 1));
                }
                if b == 0 {
                    b0 += 1;
                } else if b == 1 {
                    b1 += 1;
                } else if b == 2 {
                    b2 += 1;
                } else {
                    b3 += 1;
                }
                if is_at_least(m, margin_floor) {
                    ge_floor += 1;
                }
                max_margin = match max_margin {
                    None => Some(m),
                    Some(x) => Some(larger_of(x, m)),
                };
            }
            step += 1;
        }
        positions = positions + n;
        i += 1;
    }
    let buckets: [usize; 4] = [b0, b1, b2, b3];
    ForcedReport { positions, disagree, buckets, disagree_ge_floor: ge_floor, max_margin }
}

/// The larger of two margins.
fn larger_of(a: u32, b: u32) -> (r: u32)
    ensures
        r == larger(a, b),
{
    if bits::is_nan(a) {
        b
    } else if bits::is_nan(b) || !bits::is_less(a, b) {
        a
    } else {
        b
    }
}

/// Every disagreement is in one bucket: the buckets add up to them.
pub proof fn law_buckets_partition_the_disagreements(d: Seq<ForcedPos>)
    ensures
        in_bucket(d, 0) + in_bucket(d, 1) + in_bucket(d, 2) + in_bucket(d, 3) == d.len(),
    decreases d.len(),
{
    if d.len() > 0 {
        law_buckets_partition_the_disagreements(d.drop_last());
    }
}

/// A reference answered with its own tokens has no disagreement.
pub proof fn law_the_reference_agrees_with_itself(ours: Seq<Vec<u32>>, rows: Seq<GreedyRow>, k: int)
    requires
        0 <= k <= rows.len(),
        ours.len() == rows.len(),
        forall|i: int| 0 <= i < rows.len() ==> (#[trigger] ours[i])@ == rows[i].gen_ids@,
    ensures
        disagrees(ours, rows, k).len() == 0,
    decreases k,
{
    if k > 0 {
        law_the_reference_agrees_with_itself(ours, rows, k - 1);
        assert(ours[k - 1]@ == rows[k - 1].gen_ids@);
        lemma_row_agrees(
            ours[k - 1]@,
            rows[k - 1],
            span(ours[k - 1]@, rows[k - 1].gen_ids@),
        );
    }
}

proof fn lemma_row_agrees(table: Seq<u32>, r: GreedyRow, n: int)
    requires
        table == r.gen_ids@,
    ensures
        row_disagrees(table, r, n).len() == 0,
    decreases n,
{
    if n > 0 {
        lemma_row_agrees(table, r, n - 1);
    }
}

// ------------------------------------------------------------ what a class means

/// A row's class is told by the row itself: it is identical exactly where there
/// is no first difference, a near tie exactly where its own margin is below the
/// floor, and diverged exactly where it has a margin that is not. The first
/// difference is the least index of both lists at which the tokens differ, and
/// the margin is the reference's at that index.
pub proof fn law_a_class_is_told_by_its_margin(cont: Seq<u32>, r: GreedyRow, floor: u32)
    requires
        r.gen_ids@.len() <= r.gen_margins@.len(),
        cont.len() <= usize::MAX,
        r.gen_ids@.len() <= usize::MAX,
    ensures
        ({
            let j = judged(cont, r, floor);
            let ids = r.gen_ids@;
            &&& j.id == r.id && j.n_ours == cont.len() && j.n_ref == ids.len()
            &&& (j.class == GreedyClass::Identical) == (j.first_diff is None)
            &&& (j.first_diff is None) == (j.ref_margin is None)
            &&& (j.class == GreedyClass::NearTie) == (j.first_diff is Some && bits::less(
                j.ref_margin->0,
                floor,
            ))
            &&& (j.class == GreedyClass::Diverged) == (j.first_diff is Some && !bits::less(
                j.ref_margin->0,
                floor,
            ))
            &&& match j.first_diff {
                Some(i) => {
                    &&& i < cont.len() && i < ids.len() && cont[i as int] != ids[i as int]
                    &&& forall|k: int| 0 <= k < i ==> cont[k] == ids[k]
                    &&& j.ref_margin == Some(r.gen_margins@[i as int])
                },
                None => forall|k: int| 0 <= k < cont.len() && k < ids.len() ==> cont[k] == ids[k],
            }
        }),
{
    lemma_first_diff_is_least(cont, r.gen_ids@, span(cont, r.gen_ids@), 0);
}

proof fn lemma_first_diff_is_least(a: Seq<u32>, b: Seq<u32>, n: int, at: int)
    requires
        0 <= at <= n,
        n <= a.len(),
        n <= b.len(),
    ensures
        match first_diff(a, b, n, at) {
            Some(i) => at <= i < n && a[i] != b[i] && forall|k: int| at <= k < i ==> a[k] == b[k],
            None => forall|k: int| at <= k < n ==> a[k] == b[k],
        },
    decreases n - at,
{
    if at < n && a[at] == b[at] {
        lemma_first_diff_is_least(a, b, n, at + 1);
    }
}

// ------------------------------------------------------------ what a table gives back

/// A prompt's row reads back as it was written: its id, its text as it stands and
/// its ids, a tab between each two; a row of another width is refused.
pub proof fn law_a_prompt_reads_back(id: usize, words: Seq<char>, list: Seq<char>, ids: Seq<nat>)
    requires
        !words.contains('\t'),
        !list.contains('\t'),
        id_list(list, true) == Some(ids),
    ensures
        prompt_of(text::decimal(id as nat) + seq!['\t'] + words + seq!['\t'] + list) == Ok::<
            (nat, Seq<char>, Seq<nat>),
            RowError,
        >((id as nat, words, ids)),
        prompt_of(words + seq!['\t'] + list) == Err::<(nat, Seq<char>, Seq<nat>), RowError>(
            RowError::Width,
        ),
{
    let d = text::decimal(id as nat);
    lemma_decimal_field(id as nat);
    let a = d + seq!['\t'] + words;
    text::law_a_separator_cuts(d, '\t', words);
    text::law_a_separator_cuts(words, '\t', list);
    text::law_a_separator_cuts(list, '\t', list);
    text::law_a_separator_cuts(a, '\t', list);
    let f = text::split(a + seq!['\t'] + list, '\t');
    assert(f =~= seq![d, words, list]);
    assert(text::split(words + seq!['\t'] + list, '\t') =~= seq![words, list]);
    text::law_number_reads_decimal(id as nat, usize::MAX as nat);
}

/// A decimal number holds no tab and no blank at its ends.
proof fn lemma_decimal_field(n: nat)
    ensures
        !text::decimal(n).contains('\t'),
        trimmed(text::decimal(n)) == text::decimal(n),
        text::decimal(n).len() > 0,
{
    let d = text::decimal(n);
    lemma_digits(n);
    let none = Seq::<char>::empty();
    assert forall|i: int| 0 <= i < d.len() implies d[i] != '\t' by {
        assert('0' <= d[i] && d[i] <= '9');
    }
    assert('0' <= d[0] && d[0] <= '9' && '0' <= d[d.len() - 1] && d[d.len() - 1] <= '9');
    text::law_trimming_takes_the_ends(none, d, none);
    assert(none + d + none =~= d);
}

proof fn lemma_digits(n: nat)
    ensures
        text::decimal(n).len() > 0,
        forall|i: int|
            0 <= i < text::decimal(n).len() ==> '0' <= #[trigger] text::decimal(n)[i]
                && text::decimal(n)[i] <= '9',
    decreases n,
{
    if n >= 10 {
        lemma_digits(n / 10);
    }
}

/// Every line of a table counts but the empty ones and those that open with `#`,
/// in file order; the first that is refused is named.
pub proof fn law_a_table_is_its_lines(
    lines: Seq<Seq<char>>,
    rows: Seq<(nat, Seq<char>, Seq<nat>)>,
    greedies: Seq<GreedyView>,
    line: Seq<char>,
)
    requires
        prompts_of(lines) == Ok::<Seq<(nat, Seq<char>, Seq<nat>)>, (int, RowError)>(rows),
        greedies_of(lines) == Ok::<Seq<GreedyView>, (int, RowError)>(greedies),
    ensures
        line.len() == 0 || line[0] == '#' ==> prompts_of(lines.push(line)) == prompts_of(lines)
            && greedies_of(lines.push(line)) == greedies_of(lines),
        line.len() > 0 && line[0] != '#' ==> prompts_of(lines.push(line)) == (match prompt_of(
            line,
        ) {
            Ok(row) => Ok::<Seq<(nat, Seq<char>, Seq<nat>)>, (int, RowError)>(rows.push(row)),
            Err(e) => Err((lines.len() as int, e)),
        }),
        line.len() > 0 && line[0] != '#' ==> greedies_of(lines.push(line)) == (match greedy_of(
            line,
        ) {
            Ok(row) => Ok::<Seq<GreedyView>, (int, RowError)>(greedies.push(row)),
            Err(e) => Err((lines.len() as int, e)),
        }),
{
    assert(lines.push(line).drop_last() =~= lines);
}

/// A greedy row reads back as it was written: seven fields with a tab between
/// each two, five of the best ids with their logits, as many margins as generated
/// ids, and the first of these the argmax.
pub proof fn law_a_greedy_row_reads_back(
    id: usize,
    n_tokens: usize,
    argmax: u32,
    top5: Seq<char>,
    logits: Seq<char>,
    gen: Seq<char>,
    margins: Seq<char>,
    best: Seq<nat>,
    ids: Seq<nat>,
)
    requires
        !top5.contains('\t') && !logits.contains('\t') && !gen.contains('\t') && !margins.contains(
            '\t',
        ),
        id_list(top5, true) == Some(best) && best.len() == 5,
        id_list(gen, true) == Some(ids) && ids.len() > 0,
        float_list(logits) is Some && float_list(logits)->0.len() == 5,
        float_list(margins) is Some,
    ensures
        ({
            let tab = seq!['\t'];
            let head = text::decimal(id as nat) + tab + text::decimal(n_tokens as nat) + tab
                + text::decimal(argmax as nat);
            let line = head + tab + top5 + tab + logits + tab + gen + tab + margins;
            &&& float_list(margins)->0.len() == ids.len() && ids[0] == argmax ==> greedy_of(line)
                == Ok::<GreedyView, RowError>(
                GreedyView {
                    id: id as nat,
                    n_tokens: n_tokens as nat,
                    argmax: argmax as nat,
                    top5: best,
                    gen_ids: ids,
                    margins: float_list(margins)->0,
                },
            )
            &&& float_list(margins)->0.len() != ids.len() ==> greedy_of(line) == Err::<
                GreedyView,
                RowError,
            >(RowError::Lengths)
            &&& float_list(margins)->0.len() == ids.len() && ids[0] != argmax ==> greedy_of(line)
                == Err::<GreedyView, RowError>(RowError::Argmax)
        }),
{
    let tab = seq!['\t'];
    let (a, b, c) = (
        text::decimal(id as nat),
        text::decimal(n_tokens as nat),
        text::decimal(argmax as nat),
    );
    lemma_decimal_field(id as nat);
    lemma_decimal_field(n_tokens as nat);
    lemma_decimal_field(argmax as nat);
    text::law_number_reads_decimal(id as nat, usize::MAX as nat);
    text::law_number_reads_decimal(n_tokens as nat, usize::MAX as nat);
    text::law_number_reads_decimal(argmax as nat, u32::MAX as nat);
    let s2 = a + tab + b;
    let s3 = s2 + tab + c;
    let s4 = s3 + tab + top5;
    let s5 = s4 + tab + logits;
    let s6 = s5 + tab + gen;
    text::law_a_separator_cuts(a, '\t', b);
    text::law_a_separator_cuts(b, '\t', c);
    text::law_a_separator_cuts(c, '\t', c);
    text::law_a_separator_cuts(top5, '\t', c);
    text::law_a_separator_cuts(logits, '\t', c);
    text::law_a_separator_cuts(gen, '\t', c);
    text::law_a_separator_cuts(margins, '\t', c);
    text::law_a_separator_cuts(s2, '\t', c);
    text::law_a_separator_cuts(s3, '\t', top5);
    text::law_a_separator_cuts(s4, '\t', logits);
    text::law_a_separator_cuts(s5, '\t', gen);
    text::law_a_separator_cuts(s6, '\t', margins);
    let f = text::split(s6 + tab + margins, '\t');
    assert(f =~= seq![a, b, c, top5, logits, gen, margins]);
}

/// A list of floats is the texts between its commas, blanks around each left
/// out; one that is no float refuses it.
pub proof fn law_a_float_list_is_its_texts(s: Seq<char>, list: Seq<Seq<char>>, part: Seq<char>)
    requires
        !part.contains(','),
    ensures
        float_list(part) == (if is_float_text(trimmed(part)) {
            Some(seq![trimmed(part)])
        } else {
            None
        }),
        float_list(s) == Some(list) && is_float_text(trimmed(part)) ==> float_list(
            s + seq![','] + part,
        ) == Some(list.push(trimmed(part))),
        float_list(s) is None || !is_float_text(trimmed(part)) ==> float_list(
            s + seq![','] + part,
        ) is None,
{
    text::law_a_separator_cuts(part, ',', part);
    text::law_a_separator_cuts(s, ',', part);
    let (p, q) = (text::split(s, ','), text::split(s + seq![','] + part, ','));
    assert(text::split(part, ',') == seq![part]);
    assert(q =~= p.push(part));
    assert(text::all_trimmed(seq![part]) =~= seq![trimmed(part)]);
    assert(text::all_trimmed(q) =~= text::all_trimmed(p).push(trimmed(part)));
    assert(seq![part][0] == part);
    assert(q[q.len() - 1] == part);
    if all_floats(q) {
        assert forall|i: int| 0 <= i < p.len() implies is_float_text(trimmed(#[trigger] p[i])) by {
            assert(q[i] == p[i]);
        }
        assert(is_float_text(trimmed(q[q.len() - 1])));
    }
    if all_floats(p) && is_float_text(trimmed(part)) {
        assert forall|i: int| 0 <= i < q.len() implies is_float_text(trimmed(#[trigger] q[i])) by {
            if i < p.len() {
                assert(q[i] == p[i]);
            }
        }
    }
}

// ------------------------------------------------------------ what forcing finds

/// A row's disagreements are its steps at which our token is not the reference's,
/// each once and in order, with both tokens and the reference's margin there.
pub proof fn law_a_rows_disagreements(table: Seq<u32>, r: GreedyRow, n: int, i: int)
    requires
        0 <= i < n,
        n <= table.len(),
        n <= r.gen_ids@.len(),
        n <= usize::MAX,
    ensures
        ({
            let d = row_disagrees(table, r, n);
            &&& table[i] != r.gen_ids@[i] ==> exists|k: int|
                0 <= k < d.len() && (#[trigger] d[k]).step == i
            &&& forall|k: int|
                0 <= k < d.len() ==> {
                    let p = #[trigger] d[k];
                    &&& p.step < n && p.id == r.id
                    &&& p.ours == table[p.step as int] && p.theirs == r.gen_ids@[p.step as int]
                    &&& p.ours != p.theirs
                    &&& p.ref_margin == r.gen_margins@[p.step as int]
                }
            &&& forall|k: int, l: int|
                0 <= k < l < d.len() ==> (#[trigger] d[k]).step < (#[trigger] d[l]).step
        }),
    decreases n,
{
    let d = row_disagrees(table, r, n);
    if n > 1 {
        let j = if i < n - 1 {
            i
        } else {
            0
        };
        law_a_rows_disagreements(table, r, n - 1, j);
        let e = row_disagrees(table, r, n - 1);
        assert forall|k: int| 0 <= k < e.len() implies #[trigger] d[k] == e[k] by {}
        if i < n - 1 && table[i] != r.gen_ids@[i] {
            let k = choose|k: int| 0 <= k < e.len() && (#[trigger] e[k]).step == i;
            assert(d[k].step == i);
        }
    } else {
        reveal_with_fuel(row_disagrees, 2);
    }
    if i == n - 1 && table[i] != r.gen_ids@[i] {
        assert(d[d.len() - 1].step == i);
    }
}

/// The whole set's disagreements are each row's behind those of the rows before
/// it, and its positions each row's shorter length beside theirs.
pub proof fn law_rows_add_up(ours: Seq<Vec<u32>>, rows: Seq<GreedyRow>, k: int, n: int)
    requires
        0 <= k < rows.len(),
        ours.len() == rows.len(),
        n == (if ours[k]@.len() < rows[k].gen_ids@.len() {
            ours[k]@.len() as int
        } else {
            rows[k].gen_ids@.len() as int
        }),
    ensures
        compared(ours, rows, 0) == 0,
        disagrees(ours, rows, 0).len() == 0,
        compared(ours, rows, k + 1) == compared(ours, rows, k) + n,
        disagrees(ours, rows, k + 1) == disagrees(ours, rows, k) + row_disagrees(
            ours[k]@,
            rows[k],
            n,
        ),
{
}

/// The buckets of a margin are cut at a tenth, a half and one: a margin is in the
/// upper of two exactly where it reaches the edge between them.
pub proof fn law_buckets_are_cut_at_their_edges(m: u32)
    requires
        m < 0x7f80_0000,
    ensures
        ({
            let u = bits::value_units(m);
            let one = vstd::arithmetic::power2::pow2(149) as int;
            &&& (bucket_of(m) >= 1) == (10 * u >= one)
            &&& (bucket_of(m) >= 2) == (2 * u >= one)
            &&& (bucket_of(m) == 3) == (u >= one)
            &&& 0 <= bucket_of(m) <= 3
        }),
{
    let one = vstd::arithmetic::power2::pow2(149) as int;
    let p = vstd::arithmetic::power2::pow2(122) as int;
    vstd::arithmetic::power2::lemma2_to64();
    vstd::arithmetic::power2::lemma_pow2_pos(122);
    vstd::arithmetic::power2::lemma_pow2_adds(122, 27);
    vstd::arithmetic::power2::lemma_pow2_adds(122, 3);
    vstd::arithmetic::power2::lemma_pow2_adds(122, 4);
    assert(one == p * 134217728);
    assert(bits::value_units(0x3dcc_cccd) == 13421773 * p);
    assert(bits::value_units(0x3dcc_cccc) == 13421772 * p);
    assert(bits::value_units(0x3f00_0000) == 0x80_0000 * (p * 8));
    assert(bits::value_units(0x3f80_0000) == 0x80_0000 * (p * 16));
    bits::law_singles_order_as_their_values(m, 0x3dcc_cccd);
    bits::law_singles_order_as_their_values(0x3dcc_cccd, m);
    bits::law_singles_order_as_their_values(0x3dcc_cccc, m);
    bits::law_singles_order_as_their_values(m, 0x3dcc_cccc);
    bits::law_singles_order_as_their_values(m, 0x3f00_0000);
    bits::law_singles_order_as_their_values(m, 0x3f80_0000);
}

/// The decision quantity counts the disagreements whose margin is not below the
/// floor, and the largest margin is one of theirs that none is above.
pub proof fn law_the_clear_disagreements(d: Seq<ForcedPos>, p: ForcedPos, floor: u32, i: int)
    requires
        forall|k: int| 0 <= k < d.len() ==> (#[trigger] d[k]).ref_margin < 0x7f80_0000,
        p.ref_margin < 0x7f80_0000,
        floor < 0x7f80_0000,
        0 <= i <= d.len(),
    ensures
        clear(Seq::empty(), floor) == 0,
        clear(d.push(p), floor) == clear(d, floor) + (if bits::less(p.ref_margin, floor) {
            0int
        } else {
            1
        }),
        largest_margin(Seq::empty()) is None,
        ({
            let e = d.push(p);
            &&& largest_margin(e) is Some
            &&& !bits::less(largest_margin(e)->0, e[i].ref_margin)
            &&& exists|k: int| 0 <= k < e.len() && (#[trigger] e[k]).ref_margin == largest_margin(e)->0
        }),
    decreases d.len(),
{
    let e = d.push(p);
    assert(e.drop_last() =~= d);
    if d.len() == 0 {
        assert(e[0].ref_margin == largest_margin(e)->0);
    } else {
        let c = d.drop_last();
        assert forall|k: int| 0 <= k < c.len() implies (#[trigger] c[k]).ref_margin < 0x7f80_0000 by {
            assert(c[k] == d[k]);
        }
        assert(d[d.len() - 1].ref_margin < 0x7f80_0000);
        let j = if i < d.len() {
            i
        } else {
            0
        };
        law_the_clear_disagreements(c, d.last(), floor, j);
        assert(c.push(d.last()) =~= d);
        let k = choose|k: int|
            0 <= k < d.len() && (#[trigger] d[k]).ref_margin == largest_margin(d)->0;
        assert(e[k] == d[k]);
        assert(e[d.len() as int] == p);
        assert(d[k].ref_margin < 0x7f80_0000);
        if larger(d[k].ref_margin, p.ref_margin) == d[k].ref_margin {
            assert(e[k].ref_margin == largest_margin(e)->0);
        } else {
            assert(e[d.len() as int].ref_margin == largest_margin(e)->0);
        }
    }
}

} // verus!
