//! A greedy decode run's rules: its arguments and levers, the ids it feeds, and
//! the run under a draft.
use crate::dspark::greedy;
use crate::dspark::Verdict;
use crate::finite::site_text;
use crate::finite::Site;
use crate::generate::Place;
use crate::generate::StepMode;
use crate::text;
use crate::text::decimal;
use crate::text::id_list;
use crate::text::nats;
use crate::text::number;
use vstd::prelude::*;

verus! {

// ------------------------------------------------------------ arguments

/// A run's arguments. A flag given twice takes its last value.
#[derive(Clone, Debug)]
pub struct Args {
    /// The prompt's row.
    pub row: Option<u32>,
    /// The prompt's ids.
    pub ids: Option<Vec<u32>>,
    pub depth: Option<usize>,
    pub n_gen: usize,
    pub ctx: usize,
    pub place: Place,
    pub mode: StepMode,
    pub timed: bool,
    pub warm: Option<usize>,
}

/// Why arguments are refused.
#[derive(Clone, Copy, Debug, PartialEq, Eq, Structural)]
pub enum ArgError {
    /// The flag at this index needs a value, or is unknown.
    NoValue(usize),
    /// The value of the flag at this index does not parse.
    Value(usize),
    /// The flag at this index is unknown.
    Unknown(usize),
    /// The prompt is named by its row and by its ids.
    TwoPrompts,
    /// No token is asked for.
    NoTokens,
    /// No step is left to time: token 0 comes out of the prompt's own step.
    NothingTimed,
    /// Steps are to be dropped from statistics that are not asked for.
    WarmUntimed,
    /// Every timed step is to be dropped.
    WarmAll,
}

/// What arguments say.
pub ghost struct ArgView {
    pub row: Option<nat>,
    pub ids: Option<Seq<nat>>,
    pub depth: Option<nat>,
    pub n_gen: nat,
    pub ctx: nat,
    pub place: Place,
    pub mode: StepMode,
    pub timed: bool,
    pub warm: Option<nat>,
}

impl View for Args {
    type V = ArgView;

    open spec fn view(&self) -> ArgView {
        ArgView {
            row: match self.row {
                Some(p) => Some(p as nat),
                None => None,
            },
            ids: match self.ids {
                Some(v) => Some(nats(v@)),
                None => None,
            },
            depth: match self.depth {
                Some(d) => Some(d as nat),
                None => None,
            },
            n_gen: self.n_gen as nat,
            ctx: self.ctx as nat,
            place: self.place,
            mode: self.mode,
            timed: self.timed,
            warm: match self.warm {
                Some(w) => Some(w as nat),
                None => None,
            },
        }
    }
}

/// A size a value writes.
pub open spec fn size_of_text(s: Seq<char>) -> Option<nat> {
    number(s, usize::MAX as nat)
}

/// What a flag with a value makes of the arguments so far, `at` its index.
pub open spec fn with_flag(
    v: ArgView,
    flag: Seq<char>,
    value: Seq<char>,
    at: int,
) -> Result<ArgView, ArgError> {
    let bad = Err::<ArgView, ArgError>(ArgError::Value(at as usize));
    if flag == "--prompt-id"@ {
        match number(value, u32::MAX as nat) {
            Some(p) => Ok(ArgView { row: Some(p), ..v }),
            None => bad,
        }
    } else if flag == "--tokens"@ {
        match id_list(value, true) {
            Some(ids) => Ok(ArgView { ids: Some(ids), ..v }),
            None => bad,
        }
    } else if flag == "--depth"@ {
        match size_of_text(value) {
            Some(d) => Ok(ArgView { depth: Some(d), ..v }),
            None => bad,
        }
    } else if flag == "-n"@ {
        match size_of_text(value) {
            Some(n) => Ok(ArgView { n_gen: n, ..v }),
            None => bad,
        }
    } else if flag == "--ctx"@ {
        match size_of_text(value) {
            Some(c) => Ok(ArgView { ctx: c, ..v }),
            None => bad,
        }
    } else if flag == "--warm"@ {
        match size_of_text(value) {
            Some(w) => Ok(ArgView { warm: Some(w), ..v }),
            None => bad,
        }
    } else if flag == "--place"@ {
        if value == "a"@ {
            Ok(ArgView { place: Place::A, ..v })
        } else if value == "gate"@ {
            Ok(ArgView { place: Place::Gate, ..v })
        } else {
            bad
        }
    } else if flag == "--mode"@ {
        if value == "graph"@ {
            Ok(ArgView { mode: StepMode::Graph, ..v })
        } else if value == "eager"@ {
            Ok(ArgView { mode: StepMode::Eager, ..v })
        } else {
            bad
        }
    } else {
        Err(ArgError::Unknown(at as usize))
    }
}

/// What the arguments from `at` on make of those so far.
pub open spec fn args_from(a: Seq<Seq<char>>, at: int, v: ArgView) -> Result<ArgView, ArgError>
    decreases a.len() - at,
{
    if at < 0 || at >= a.len() {
        Ok(v)
    } else if a[at] == "--time"@ {
        args_from(a, at + 1, ArgView { timed: true, ..v })
    } else if at + 1 >= a.len() {
        Err(ArgError::NoValue(at as usize))
    } else {
        match with_flag(v, a[at], a[at + 1], at) {
            Ok(w) => args_from(a, at + 2, w),
            Err(e) => Err(e),
        }
    }
}

/// The arguments of none: 32 tokens of the serving context, placement a,
/// graph mode.
pub open spec fn no_args(ctx: usize) -> ArgView {
    ArgView {
        row: None,
        ids: None,
        depth: None,
        n_gen: 32,
        ctx: ctx as nat,
        place: Place::A,
        mode: StepMode::Graph,
        timed: false,
        warm: None,
    }
}

/// What is wrong with a run's counts: refused rather than ignored are a warm-up
/// with nothing to trim and one that trims every timed step.
pub open spec fn count_fault(n_gen: nat, timed: bool, warm: Option<nat>) -> Option<ArgError> {
    if n_gen == 0 {
        Some(ArgError::NoTokens)
    } else if timed && n_gen < 2 {
        Some(ArgError::NothingTimed)
    } else if warm is Some && !timed {
        Some(ArgError::WarmUntimed)
    } else if warm is Some && warm->0 >= n_gen - 1 {
        Some(ArgError::WarmAll)
    } else {
        None
    }
}

/// What the arguments say.
pub open spec fn args_of(a: Seq<Seq<char>>, ctx: usize) -> Result<ArgView, ArgError> {
    match args_from(a, 0, no_args(ctx)) {
        Err(e) => Err(e),
        Ok(v) => if v.row is Some && v.ids is Some {
            Err(ArgError::TwoPrompts)
        } else {
            match count_fault(v.n_gen, v.timed, v.warm) {
                Some(e) => Err(e),
                None => Ok(v),
            }
        },
    }
}

/// Checks a run's counts.
pub fn check_counts(n_gen: usize, timed: bool, warm: Option<usize>) -> (r: Result<(), ArgError>)
    ensures
        match r {
            Ok(_) => count_fault(n_gen as nat, timed, opt_nat(warm)) is None,
            Err(e) => count_fault(n_gen as nat, timed, opt_nat(warm)) == Some(e),
        },
{
    if n_gen == 0 {
        return Err(ArgError::NoTokens);
    }
    if timed && n_gen < 2 {
        return Err(ArgError::NothingTimed);
    }
    match warm {
        None => Ok(()),
        Some(w) => if !timed {
            Err(ArgError::WarmUntimed)
        } else if w >= n_gen - 1 {
            Err(ArgError::WarmAll)
        } else {
            Ok(())
        },
    }
}

/// A count, where there is one.
pub open spec fn opt_nat(v: Option<usize>) -> Option<nat> {
    match v {
        Some(x) => Some(x as nat),
        None => None,
    }
}

/// A size a value writes.
fn parse_size(v: &[char]) -> (r: Option<usize>)
    ensures
        match r {
            Some(n) => size_of_text(v@) == Some(n as nat),
            None => size_of_text(v@) is None,
        },
{
    match text::parse_number(v, usize::MAX as u64) {
        Some(n) => Some(n as usize),
        None => None,
    }
}

/// Takes a flag and its value.
fn take_flag(a: &mut Args, flag: &str, value: &str, at: usize) -> (r: Result<(), ArgError>)
    ensures
        match r {
            Ok(_) => with_flag(old(a)@, flag@, value@, at as int) == Ok::<ArgView, ArgError>(
                final(a)@,
            ),
            Err(e) => with_flag(old(a)@, flag@, value@, at as int) == Err::<ArgView, ArgError>(e),
        },
{
    let v: Vec<char> = text::chars_of(value);
    if text::same_str(flag, "--prompt-id") {
        match text::parse_number(v.as_slice(), u32::MAX as u64) {
            Some(p) => {
                a.row = Some(p as u32);
            },
            None => {
                return Err(ArgError::Value(at));
            },
        }
    } else if text::same_str(flag, "--tokens") {
        match text::parse_ids(v.as_slice(), true) {
            Some(ids) => {
                a.ids = Some(ids);
            },
            None => {
                return Err(ArgError::Value(at));
            },
        }
    } else if text::same_str(flag, "--depth") {
        match parse_size(v.as_slice()) {
            Some(d) => {
                a.depth = Some(d);
            },
            None => {
                return Err(ArgError::Value(at));
            },
        }
    } else if text::same_str(flag, "-n") {
        match parse_size(v.as_slice()) {
            Some(n) => {
                a.n_gen = n;
            },
            None => {
                return Err(ArgError::Value(at));
            },
        }
    } else if text::same_str(flag, "--ctx") {
        match parse_size(v.as_slice()) {
            Some(c) => {
                a.ctx = c;
            },
            None => {
                return Err(ArgError::Value(at));
            },
        }
    } else if text::same_str(flag, "--warm") {
        match parse_size(v.as_slice()) {
            Some(w) => {
                a.warm = Some(w);
            },
            None => {
                return Err(ArgError::Value(at));
            },
        }
    } else if text::same_str(flag, "--place") {
        match Place::parse(value) {
            Ok(p) => {
                a.place = p;
                proof {
                    crate::generate::law_a_place_is_named_once(Place::A, Place::Gate);
                }
            },
            Err(_) => {
                return Err(ArgError::Value(at));
            },
        }
    } else if text::same_str(flag, "--mode") {
        if text::same_str(value, "graph") {
            a.mode = StepMode::Graph;
        } else if text::same_str(value, "eager") {
            a.mode = StepMode::Eager;
        } else {
            return Err(ArgError::Value(at));
        }
    } else {
        return Err(ArgError::Unknown(at));
    }
    Ok(())
}

/// A run's arguments, the program's name not among them; `ctx` the serving
/// context.
pub fn parse_args(list: &[String], ctx: usize) -> (r: Result<Args, ArgError>)
    ensures
        match r {
            Ok(a) => args_of(text::strings(list@), ctx) == Ok::<ArgView, ArgError>(a@),
            Err(e) => args_of(text::strings(list@), ctx) == Err::<ArgView, ArgError>(e),
        },
{
    let ghost all = text::strings(list@);
    let mut a: Args = Args {
        row: None,
        ids: None,
        depth: None,
        n_gen: 32,
        ctx,
        place: Place::A,
        mode: StepMode::Graph,
        timed: false,
        warm: None,
    };
    let n: usize = list.len();
    let mut i: usize = 0;
    while i < n
        invariant
            i <= n == list@.len(),
            all == text::strings(list@),
            args_from(all, 0, no_args(ctx)) == args_from(all, i as int, a@),
        decreases n - i,
    {
        assert(all[i as int] == list@[i as int]@);
        if text::same_str(list[i].as_str(), "--time") {
            let ghost held = a@;
            a.timed = true;
            assert(a@ == ArgView { timed: true, ..held });
            i += 1;
        } else {
            if n - i < 2 {
                return Err(ArgError::NoValue(i));
            }
            assert(all[i + 1] == list@[i + 1]@);
            match take_flag(&mut a, list[i].as_str(), list[i + 1].as_str(), i) {
                Ok(_) => {},
                Err(e) => {
                    return Err(e);
                },
            }
            i += 2;
        }
    }
    if a.row.is_some() && a.ids.is_some() {
        return Err(ArgError::TwoPrompts);
    }
    check_counts(a.n_gen, a.timed, a.warm)?;
    Ok(a)
}

// ------------------------------------------------------------ fed ids

/// Where a run's prompt comes from.
#[derive(Clone, Copy, Debug, PartialEq, Eq, Structural)]
pub enum PromptFrom {
    /// The ids that are given.
    Ids,
    /// This row's file.
    Row(u32),
    /// Nowhere: a depth is given and no prompt.
    Nothing,
}

/// Where a run's prompt comes from: row 0, or nothing under a depth, unless it
/// is named.
pub fn prompt_from(a: &Args) -> (r: PromptFrom)
    ensures
        r == (match (a.ids, a.row) {
            (Some(_), _) => PromptFrom::Ids,
            (None, Some(p)) => PromptFrom::Row(p),
            (None, None) => if a.depth is Some {
                PromptFrom::Nothing
            } else {
                PromptFrom::Row(0)
            },
        }),
{
    if a.ids.is_some() {
        PromptFrom::Ids
    } else {
        match a.row {
            Some(p) => PromptFrom::Row(p),
            None => if a.depth.is_some() {
                PromptFrom::Nothing
            } else {
                PromptFrom::Row(0)
            },
        }
    }
}

/// Why a prompt file gives no ids.
#[derive(Clone, Copy, Debug, PartialEq, Eq, Structural)]
pub enum PromptError {
    /// It has no row.
    NoRow,
    /// Its row has no ids.
    NoIds,
    /// Its ids do not parse.
    Ids,
}

/// The first line from `at` on that is neither empty nor a comment.
pub open spec fn first_row_line(lines: Seq<Seq<char>>, at: int) -> Option<Seq<char>>
    decreases lines.len() - at,
{
    if at < 0 || at >= lines.len() {
        None
    } else if lines[at].len() > 0 && lines[at][0] != '#' {
        Some(lines[at])
    } else {
        first_row_line(lines, at + 1)
    }
}

/// What a prompt file says: the first row's third column.
pub open spec fn prompt_ids(s: Seq<char>) -> Result<Seq<nat>, PromptError> {
    match first_row_line(text::lines(s), 0) {
        None => Err(PromptError::NoRow),
        Some(row) => {
            let f = text::split(row, '\t');
            if f.len() < 3 {
                Err(PromptError::NoIds)
            } else {
                match id_list(f[2], true) {
                    Some(ids) => Ok(ids),
                    None => Err(PromptError::Ids),
                }
            }
        },
    }
}

/// The prompt's ids from its file's text.
pub fn prompt_row(s: &str) -> (r: Result<Vec<u32>, PromptError>)
    ensures
        match r {
            Ok(v) => prompt_ids(s@) == Ok::<Seq<nat>, PromptError>(nats(v@)),
            Err(e) => prompt_ids(s@) == Err::<Seq<nat>, PromptError>(e),
        },
{
    let lines: Vec<Vec<char>> = text::lines_of(text::chars_of(s).as_slice());
    let ghost all = text::lines(s@);
    let mut i: usize = 0;
    while i < lines.len()
        invariant
            i <= lines@.len(),
            text::pieces(lines@) == all,
            all == text::lines(s@),
            first_row_line(all, 0) == first_row_line(all, i as int),
        decreases lines@.len() - i,
    {
        assert(all[i as int] == lines@[i as int]@);
        if lines[i].len() > 0 && lines[i][0] != '#' {
            let f: Vec<Vec<char>> = text::split_at_each(lines[i].as_slice(), '\t');
            if f.len() < 3 {
                return Err(PromptError::NoIds);
            }
            assert(text::pieces(f@)[2] == f@[2]@);
            return match text::parse_ids(f[2].as_slice(), true) {
                Some(ids) => Ok(ids),
                None => Err(PromptError::Ids),
            };
        }
        i += 1;
    }
    Err(PromptError::NoRow)
}

/// The distance between neighbouring doubles at an integer.
pub open spec fn spacing(x: nat) -> nat
    decreases x,
{
    if x < 0x20_0000_0000_0000 {
        1
    } else {
        2 * spacing(x / 2)
    }
}

/// An integer rounded to the nearest multiple of `u`, the even one of two as
/// near.
pub open spec fn to_multiple(x: nat, u: nat) -> nat {
    let q = x / u;
    let r = x % u;
    if 2 * r < u || (2 * r == u && q % 2 == 0) {
        q * u
    } else {
        (q + 1) * u
    }
}

/// An integer as a double holds it.
pub open spec fn as_double(x: nat) -> nat {
    to_multiple(x, spacing(x))
}

/// The sequence's next state: the walk is made in doubles, so past the second
/// id the exact 64-bit walk is another sequence.
pub open spec fn depth_step(s: nat) -> nat {
    as_double(as_double(s * 1_103_515_245) + 12_345) % 0x8000_0000
}

/// The sequence's state at an id.
pub open spec fn depth_state(i: int) -> nat
    decreases i,
{
    if i <= 0 {
        12_345
    } else {
        depth_step(depth_state(i - 1))
    }
}

/// Id `i` of the depth sequence: 100000, then a walk over [1000, 91000).
pub open spec fn depth_id(i: int) -> nat {
    if i <= 0 {
        100_000
    } else {
        1000 + depth_state(i) % 90_000
    }
}

/// The ids of the depth sequence from `from` to `to`.
pub open spec fn depth_span(from: int, to: int) -> Seq<nat> {
    Seq::new((to - from) as nat, |k: int| depth_id(from + k))
}

/// The distance between neighbouring doubles, above a power of two.
proof fn lemma_spacing(x: nat, u: nat)
    requires
        u == spacing(x),
        x < 0x4000_0000_0000_0000,
    ensures
        1 <= u <= 0x200,
    decreases x,
{
    if x >= 0x20_0000_0000_0000 {
        reveal_with_fuel(spacing, 11);
        let a = x / 2;
        let b = a / 2;
        let c = b / 2;
        let d = c / 2;
        let f = d / 2;
        let g = f / 2;
        let h = g / 2;
        let i = h / 2;
        let j = i / 2;
        assert(j < 0x20_0000_0000_0000);
    }
}

/// The distance between neighbouring doubles at an integer.
fn spacing_of(x: u64) -> (r: u64)
    requires
        x < 0x4000_0000_0000_0000,
    ensures
        r == spacing(x as nat),
        1 <= r <= 0x200,
    decreases x,
{
    proof {
        lemma_spacing(x as nat, spacing(x as nat));
    }
    if x < 0x20_0000_0000_0000 {
        1
    } else {
        let r: u64 = spacing_of(x / 2);
        2 * r
    }
}

/// An integer as a double holds it.
fn double_of(x: u64) -> (r: u64)
    requires
        x < 0x3fff_ffff_ffff_fc00,
    ensures
        r == as_double(x as nat),
        r <= x + 0x200,
{
    let u: u64 = spacing_of(x);
    let q: u64 = x / u;
    let rest: u64 = x % u;
    proof {
        vstd::arithmetic::div_mod::lemma_fundamental_div_mod(x as int, u as int);
        assert(q * u == u * q) by (nonlinear_arith);
        assert((q + 1) * u == q * u + u) by (nonlinear_arith);
    }
    if 2 * rest < u || (2 * rest == u && q % 2 == 0) {
        q * u
    } else {
        (q + 1) * u
    }
}

/// The sequence's next state.
fn next_state(s: u64) -> (r: u64)
    requires
        s < 0x8000_0000,
    ensures
        r == depth_step(s as nat),
        r < 0x8000_0000,
{
    assert(s * 1_103_515_245 < 0x8000_0000 * 1_103_515_245);
    let p: u64 = double_of(s * 1_103_515_245);
    double_of(p + 12_345) % 0x8000_0000
}

/// The first `n` ids of the depth sequence.
pub fn depth_ids(n: usize) -> (r: Vec<u32>)
    ensures
        nats(r@) == depth_span(0, n as int),
{
    let mut out: Vec<u32> = Vec::new();
    let mut s: u64 = 12_345;
    let mut i: usize = 0;
    while i < n
        invariant
            i <= n,
            s < 0x8000_0000,
            i == 0 ==> s == 12_345,
            i > 0 ==> s == depth_state(i - 1),
            nats(out@) =~= depth_span(0, i as int),
        decreases n - i,
    {
        let ghost held = nats(out@);
        let id: u32;
        if i == 0 {
            id = 100_000;
        } else {
            s = next_state(s);
            id = 1000 + (s % 90_000) as u32;
        }
        out.push(id);
        assert(nats(out@) =~= held.push(id as nat));
        assert(id == depth_id(i as int));
        i += 1;
    }
    out
}

/// Every id of the depth sequence but the first lies in [1000, 91000).
pub proof fn law_depth_ids_are_in_range(i: int)
    ensures
        i > 0 ==> 1000 <= depth_id(i) < 91_000,
        depth_id(0) == 100_000,
{
}

/// Why there is nothing to feed.
#[derive(Clone, Copy, Debug, PartialEq, Eq, Structural)]
pub enum FedError {
    /// The depth is shorter than the prompt.
    Shorter,
    /// There is no id.
    Empty,
}

/// The ids a run feeds before its first generated token: the prompt's, then the
/// depth sequence's from the prompt's length on.
pub fn fed_ids(prompt: &[u32], depth: Option<usize>) -> (r: Result<Vec<u32>, FedError>)
    ensures
        match r {
            Ok(v) => {
                &&& v@.len() > 0
                &&& depth matches Some(d) ==> prompt@.len() <= d
                &&& nats(v@) == nats(prompt@) + (match depth {
                    Some(d) => depth_span(prompt@.len() as int, d as int),
                    None => seq![],
                })
            },
            Err(FedError::Shorter) => depth matches Some(d) && d < prompt@.len(),
            Err(FedError::Empty) => prompt@.len() == 0 && (depth matches Some(d) ==> d == 0),
        },
{
    let mut ids: Vec<u32> = Vec::new();
    let mut i: usize = 0;
    while i < prompt.len()
        invariant
            i <= prompt@.len(),
            ids@ =~= prompt@.take(i as int),
        decreases prompt@.len() - i,
    {
        ids.push(prompt[i]);
        i += 1;
    }
    assert(ids@ =~= prompt@);
    match depth {
        Some(d) => {
            if d < ids.len() {
                return Err(FedError::Shorter);
            }
            let all: Vec<u32> = depth_ids(d);
            assert(nats(all@).len() == all@.len());
            let from: usize = ids.len();
            let mut k: usize = from;
            while k < d
                invariant
                    from <= k <= d == all@.len(),
                    from == prompt@.len(),
                    nats(all@) == depth_span(0, d as int),
                    nats(ids@) =~= nats(prompt@) + depth_span(from as int, k as int),
                decreases d - k,
            {
                let ghost held = nats(ids@);
                ids.push(all[k]);
                assert(nats(ids@) =~= held.push(all@[k as int] as nat));
                assert(nats(all@)[k as int] == depth_id(k as int));
                k += 1;
            }
            assert(nats(ids@).len() == ids@.len());
        },
        None => {
            assert(nats(ids@) =~= nats(prompt@) + seq![]);
        },
    }
    if ids.len() == 0 {
        return Err(FedError::Empty);
    }
    Ok(ids)
}

// ------------------------------------------------------------ levers

/// Which draft a run serves.
#[derive(Clone, Copy, Debug, PartialEq, Eq, Structural)]
pub enum Draft {
    /// The plain path.
    Off,
    /// The n-gram lookup.
    Lookup,
    /// The DSpark draft.
    Dspark,
}

impl Draft {
    /// The lever's value.
    pub open spec fn spelling(self) -> Seq<char> {
        match self {
            Draft::Off => "unset"@,
            Draft::Lookup => "lookup"@,
            Draft::Dspark => "dspark"@,
        }
    }

    /// The lever's value, as the lines print it.
    pub fn name(self) -> (r: &'static str)
        ensures
            r@ == self.spelling(),
    {
        match self {
            Draft::Off => "unset",
            Draft::Lookup => "lookup",
            Draft::Dspark => "dspark",
        }
    }
}

/// The draft a lever serves: unset is the plain path; `None` of a value that is
/// refused.
pub fn draft_lever(value: Option<&str>) -> (r: Option<Draft>)
    ensures
        r == (match value {
            None => Some(Draft::Off),
            Some(v) => if v@ == "lookup"@ {
                Some(Draft::Lookup)
            } else if v@ == "dspark"@ {
                Some(Draft::Dspark)
            } else {
                None
            },
        }),
{
    match value {
        None => Some(Draft::Off),
        Some(v) => if text::same_str(v, "lookup") {
            Some(Draft::Lookup)
        } else if text::same_str(v, "dspark") {
            Some(Draft::Dspark)
        } else {
            None
        },
    }
}

/// Why the finite probe is refused.
#[derive(Clone, Copy, Debug, PartialEq, Eq, Structural)]
pub enum ProbeError {
    /// The lever is 1, 0 or unset.
    Value,
    /// The probe's eager step would sit between two timed steps.
    Timed,
    /// The probe reads one-row steps.
    Draft,
    /// The host tier's counters would count the probe's step too.
    Stats,
}

/// Whether the finite probe runs: unset or `0` is off, `1` on; any other value
/// is refused, and so is the lever beside timing, a draft and the step stats.
pub fn finite_lever(value: Option<&str>, timed: bool, draft: Draft, stats: bool) -> (r: Result<
    bool,
    ProbeError,
>)
    ensures
        r == (match value {
            None => Ok::<bool, ProbeError>(false),
            Some(v) => if v@ == "0"@ {
                Ok(false)
            } else if v@ != "1"@ {
                Err(ProbeError::Value)
            } else if timed {
                Err(ProbeError::Timed)
            } else if draft != Draft::Off {
                Err(ProbeError::Draft)
            } else if stats {
                Err(ProbeError::Stats)
            } else {
                Ok(true)
            },
        }),
{
    match value {
        None => Ok(false),
        Some(v) => if text::same_str(v, "0") {
            Ok(false)
        } else if !text::same_str(v, "1") {
            Err(ProbeError::Value)
        } else if timed {
            Err(ProbeError::Timed)
        } else if draft != Draft::Off {
            Err(ProbeError::Draft)
        } else if stats {
            Err(ProbeError::Stats)
        } else {
            Ok(true)
        },
    }
}

/// Why a run does not fit.
#[derive(Clone, Copy, Debug, PartialEq, Eq, Structural)]
pub enum RoomError {
    /// There is no pass to draft: token 0 comes out of the prompt's own step.
    NoPass,
    /// The fed tokens exceed the context.
    Context,
    /// The last pair's overshoot exceeds the context.
    Overshoot,
}

/// Whether a run fits: positions 0 to `depth - 1` are the fed ids, the
/// `n_gen - 1` feedback steps follow, and a draft's last pass may overshoot by
/// one.
pub fn check_room(depth: usize, n_gen: usize, draft: Draft, ctx_max: usize) -> (r: Result<
    (),
    RoomError,
>)
    requires
        n_gen > 0,
    ensures
        r == (if draft != Draft::Off && n_gen < 2 {
            Err::<(), RoomError>(RoomError::NoPass)
        } else if depth + n_gen - 1 > ctx_max {
            Err(RoomError::Context)
        } else if draft != Draft::Off && depth + n_gen > ctx_max {
            Err(RoomError::Overshoot)
        } else {
            Ok(())
        }),
{
    if draft != Draft::Off && n_gen < 2 {
        return Err(RoomError::NoPass);
    }
    let steps: usize = n_gen - 1;
    if depth > ctx_max || steps > ctx_max - depth {
        return Err(RoomError::Context);
    }
    if draft != Draft::Off && steps == ctx_max - depth {
        return Err(RoomError::Overshoot);
    }
    Ok(())
}

// ------------------------------------------------------------ drafted runs

/// What one draft pass ran, and so how many positions it advanced.
#[derive(Clone, Copy, Debug, PartialEq, Eq, Structural)]
pub enum PassKind {
    /// No proposal: one step.
    Plain,
    /// Row A's argmax was the draft: both rows' tokens kept.
    Accept,
    /// Row A's argmax was not the draft: the second position taken back.
    Reject,
}

impl PassKind {
    /// The kind as the lines print it.
    pub open spec fn spelling(self) -> Seq<char> {
        match self {
            PassKind::Plain => "plain"@,
            PassKind::Accept => "pair-accept"@,
            PassKind::Reject => "pair-reject"@,
        }
    }

    /// The kind as the lines print it.
    pub fn name(self) -> (r: &'static str)
        ensures
            r@ == self.spelling(),
    {
        match self {
            PassKind::Plain => "plain",
            PassKind::Accept => "pair-accept",
            PassKind::Reject => "pair-reject",
        }
    }

    /// The positions the pass advanced.
    pub open spec fn advances(self) -> nat {
        if self == PassKind::Accept {
            2
        } else {
            1
        }
    }

    /// The positions the pass advanced.
    pub fn positions(self) -> (r: usize)
        ensures
            r == self.advances(),
    {
        if self == PassKind::Accept {
            2
        } else {
            1
        }
    }
}

/// A token and the position it is the argmax after.
#[derive(Clone, Copy, Debug, PartialEq, Eq, Structural)]
pub struct Emitted {
    pub pos: u32,
    pub token: u32,
}

/// What a pass emits: its kind and its tokens, `stepped` the token of a plain
/// step.
pub open spec fn pass_of(pos: u32, verdict: Option<Verdict>, stepped: u32) -> (
    PassKind,
    Seq<Emitted>,
) {
    match verdict {
        Some(Verdict::Accept(t)) => (
            PassKind::Accept,
            seq![
                Emitted { pos, token: t@[0] },
                Emitted { pos: (pos + 1) as u32, token: t@[1] },
            ],
        ),
        Some(Verdict::Reject(t)) => (PassKind::Reject, seq![Emitted { pos, token: t }]),
        None => (PassKind::Plain, seq![Emitted { pos, token: stepped }]),
    }
}

/// A run under a draft: passes until `n_gen` tokens are out, token 0 the
/// prompt's own.
#[derive(Clone, Debug)]
pub struct DraftRun {
    pub n_gen: usize,
    pub first: u32,
    /// The token the next pass starts from.
    pub next: u32,
    pub emitted: Vec<Emitted>,
    pub passes: Vec<PassKind>,
}

/// The positions that passes advanced.
pub open spec fn advanced(passes: Seq<PassKind>) -> nat
    decreases passes.len(),
{
    if passes.len() == 0 {
        0
    } else {
        advanced(passes.drop_last()) + passes.last().advances()
    }
}

impl DraftRun {
    /// Every position the passes advanced emitted a token, the last one is the
    /// next pass's, and the run overshoots by one token at most.
    pub open spec fn wf(&self) -> bool {
        &&& self.n_gen >= 2
        &&& self.emitted@.len() == advanced(self.passes@)
        &&& self.next == (if self.emitted@.len() == 0 {
            self.first
        } else {
            self.emitted@.last().token
        })
        &&& self.emitted@.len() <= self.n_gen
    }

    /// The run still wants tokens.
    pub open spec fn wants_more(&self) -> bool {
        self.emitted@.len() + 1 < self.n_gen
    }

    /// A run that has its first token.
    pub fn new(n_gen: usize, first: u32) -> (r: DraftRun)
        requires
            n_gen >= 2,
        ensures
            r.wf(),
            r.n_gen == n_gen,
            r.first == first,
            r.emitted@.len() == 0,
            r.passes@.len() == 0,
    {
        DraftRun { n_gen, first, next: first, emitted: Vec::new(), passes: Vec::new() }
    }

    /// Whether the run still wants tokens.
    pub fn wants(&self) -> (r: bool)
        requires
            self.wf(),
        ensures
            r == self.wants_more(),
    {
        self.emitted.len() < self.n_gen - 1
    }

    /// Takes a pass: its verdict, or the token of a plain step; the kind that it
    /// was.
    pub fn take(&mut self, pos: u32, verdict: Option<Verdict>, stepped: u32) -> (r: PassKind)
        requires
            old(self).wf(),
            old(self).wants_more(),
            pos < u32::MAX,
        ensures
            final(self).wf(),
            final(self).n_gen == old(self).n_gen,
            final(self).first == old(self).first,
            r == pass_of(pos, verdict, stepped).0,
            final(self).emitted@ == old(self).emitted@ + pass_of(pos, verdict, stepped).1,
            final(self).passes@ == old(self).passes@.push(r),
            final(self).next == final(self).emitted@.last().token,
    {
        let ghost held = self.emitted@;
        let ghost ran = self.passes@;
        let kind: PassKind = match verdict {
            Some(Verdict::Accept(t)) => {
                self.emitted.push(Emitted { pos, token: t[0] });
                self.emitted.push(Emitted { pos: pos + 1, token: t[1] });
                self.next = t[1];
                PassKind::Accept
            },
            Some(Verdict::Reject(t)) => {
                self.emitted.push(Emitted { pos, token: t });
                self.next = t;
                PassKind::Reject
            },
            None => {
                self.emitted.push(Emitted { pos, token: stepped });
                self.next = stepped;
                PassKind::Plain
            },
        };
        self.passes.push(kind);
        proof {
            assert(self.emitted@ =~= held + pass_of(pos, verdict, stepped).1);
            assert(self.passes@.drop_last() =~= ran);
        }
        kind
    }

    /// The run's tokens, capped at the ones asked for.
    pub fn tokens(&self) -> (r: Vec<u32>)
        requires
            self.wf(),
            !self.wants_more(),
        ensures
            r@ == run_tokens(self.first, self.emitted@).take(self.n_gen as int),
    {
        let mut out: Vec<u32> = vec![self.first];
        let mut i: usize = 1;
        while i < self.n_gen
            invariant
                1 <= i <= self.n_gen,
                self.n_gen <= self.emitted@.len() + 1,
                out@.len() == i,
                out@[0] == self.first,
                forall|k: int| 1 <= k < i ==> #[trigger] out@[k] == self.emitted@[k - 1].token,
            decreases self.n_gen - i,
        {
            out.push(self.emitted[i - 1].token);
            i += 1;
        }
        assert(out@ =~= run_tokens(self.first, self.emitted@).take(self.n_gen as int));
        out
    }

    /// The run's summary, the rate's positions over the passes past `warm`;
    /// `None` when that leaves no pass.
    pub fn summary(&self, warm: usize) -> (r: Option<DraftSummary>)
        requires
            self.wf(),
        ensures
            match r {
                Some(s) => {
                    &&& warm < self.passes@.len()
                    &&& s.proposals == proposed(self.passes@)
                    &&& s.accepts == accepted(self.passes@)
                    &&& s.positions == advanced(self.passes@)
                    &&& s.kept == self.passes@.len() - warm
                    &&& s.kept_positions == advanced(self.passes@.skip(warm as int))
                },
                None => warm >= self.passes@.len(),
            },
    {
        let n: usize = self.passes.len();
        if warm >= n {
            return None;
        }
        let mut proposals: usize = 0;
        let mut accepts: usize = 0;
        let mut positions: usize = 0;
        let mut kept_positions: usize = 0;
        let mut i: usize = 0;
        let total: usize = self.emitted.len();
        assert(self.passes@.take(0) =~= seq![]);
        while i < n
            invariant
                i <= n == self.passes@.len(),
                warm < n,
                total == advanced(self.passes@),
                proposals == proposed(self.passes@.take(i as int)),
                accepts == accepted(self.passes@.take(i as int)),
                positions == advanced(self.passes@.take(i as int)),
                proposals <= i,
                accepts <= i,
                kept_positions <= positions,
                kept_positions == (if i <= warm {
                    0
                } else {
                    advanced(self.passes@.subrange(warm as int, i as int))
                }),
            decreases n - i,
        {
            let ghost t = self.passes@.take(i + 1);
            proof {
                assert(t.drop_last() =~= self.passes@.take(i as int));
                lemma_advanced_grows(self.passes@, i + 1);
                if i >= warm {
                    let s = self.passes@.subrange(warm as int, i + 1);
                    assert(s.drop_last() =~= self.passes@.subrange(warm as int, i as int));
                    assert(s.last() == self.passes@[i as int]);
                    if i == warm {
                        assert(self.passes@.subrange(warm as int, i as int) =~= seq![]);
                        assert(advanced(s.drop_last()) == 0);
                    }
                    assert(advanced(s) == advanced(s.drop_last()) + s.last().advances());
                }
            }
            let kind: PassKind = self.passes[i];
            if kind != PassKind::Plain {
                proposals += 1;
            }
            if kind == PassKind::Accept {
                accepts += 1;
            }
            positions += kind.positions();
            if i >= warm {
                kept_positions += kind.positions();
            }
            i += 1;
        }
        assert(self.passes@.take(n as int) =~= self.passes@);
        assert(self.passes@.subrange(warm as int, n as int) =~= self.passes@.skip(warm as int));
        Some(DraftSummary { proposals, accepts, positions, kept: n - warm, kept_positions })
    }
}

proof fn lemma_advanced_grows(p: Seq<PassKind>, i: int)
    requires
        0 <= i <= p.len(),
    ensures
        advanced(p.take(i)) <= advanced(p),
    decreases p.len(),
{
    if i == p.len() {
        assert(p.take(i) =~= p);
    } else {
        assert(p.drop_last().take(i) =~= p.take(i));
        lemma_advanced_grows(p.drop_last(), i);
    }
}

/// A drafted run in numbers.
#[derive(Clone, Copy, Debug, PartialEq, Eq, Structural)]
pub struct DraftSummary {
    pub proposals: usize,
    pub accepts: usize,
    pub positions: usize,
    /// The passes past the warm-up, and their positions.
    pub kept: usize,
    pub kept_positions: usize,
}

/// The passes that had a proposal.
pub open spec fn proposed(passes: Seq<PassKind>) -> nat
    decreases passes.len(),
{
    if passes.len() == 0 {
        0
    } else {
        proposed(passes.drop_last()) + (if passes.last() != PassKind::Plain {
            1nat
        } else {
            0
        })
    }
}

/// The passes that accepted their proposal.
pub open spec fn accepted(passes: Seq<PassKind>) -> nat
    decreases passes.len(),
{
    if passes.len() == 0 {
        0
    } else {
        accepted(passes.drop_last()) + (if passes.last() == PassKind::Accept {
            1nat
        } else {
            0
        })
    }
}

/// Every pass advances one position, an accepted proposal one more.
pub proof fn law_accepts_are_the_gain(passes: Seq<PassKind>)
    ensures
        advanced(passes) == passes.len() + accepted(passes),
        accepted(passes) <= proposed(passes) <= passes.len(),
    decreases passes.len(),
{
    if passes.len() > 0 {
        law_accepts_are_the_gain(passes.drop_last());
    }
}

/// A finished run overshoots the tokens asked for by one at most.
pub proof fn law_overshoot_is_one_token(r: DraftRun)
    requires
        r.wf(),
        !r.wants_more(),
    ensures
        r.n_gen - 1 <= r.emitted@.len() <= r.n_gen,
{
}

/// One pass of a run: what was proposed to it, if anything, and what it gave.
pub ghost struct PassMade {
    pub pos: u32,
    pub draft: Option<u32>,
    pub verdict: Option<Verdict>,
    pub stepped: u32,
}

/// What passes emitted, in order.
pub open spec fn emitted_by(made: Seq<PassMade>) -> Seq<Emitted>
    decreases made.len(),
{
    if made.len() == 0 {
        seq![]
    } else {
        let m = made.last();
        emitted_by(made.drop_last()) + pass_of(m.pos, m.verdict, m.stepped).1
    }
}

/// A run's tokens: the first, then the emitted ones.
pub open spec fn run_tokens(first: u32, emitted: Seq<Emitted>) -> Seq<u32> {
    seq![first] + emitted.map_values(|e: Emitted| e.token)
}

/// A pass gave the target's argmaxes after `fed`: a proposal's pair ran over it
/// and the text it continues, and was accepted where row A's argmax is the
/// proposal.
pub open spec fn answered(target: spec_fn(Seq<u32>) -> u32, fed: Seq<u32>, m: PassMade) -> bool {
    match m.draft {
        None => m.verdict is None && m.stepped == target(fed),
        Some(d) => if target(fed) == d {
            m.verdict matches Some(Verdict::Accept(t)) && t@ == seq![d, target(fed.push(d))]
        } else {
            m.verdict == Some(Verdict::Reject(target(fed)))
        },
    }
}

/// Every token of a run is the target's: the first the argmax after the fed
/// ids, each pass an answer to the text before it.
pub open spec fn run_answered(
    target: spec_fn(Seq<u32>) -> u32,
    ids: Seq<u32>,
    first: u32,
    made: Seq<PassMade>,
) -> bool
    decreases made.len(),
{
    if made.len() == 0 {
        first == target(ids)
    } else {
        let before = made.drop_last();
        &&& run_answered(target, ids, first, before)
        &&& answered(target, ids + run_tokens(first, emitted_by(before)), made.last())
    }
}

/// A greedy run goes on where a shorter one ended.
proof fn lemma_greedy_goes_on(target: spec_fn(Seq<u32>) -> u32, fed: Seq<u32>, n: nat, m: nat)
    ensures
        greedy(target, fed, n).len() == n,
        greedy(target, fed, n + m) == greedy(target, fed, n) + greedy(
            target,
            fed + greedy(target, fed, n),
            m,
        ),
    decreases n,
{
    if n == 0 {
        assert(fed + greedy(target, fed, 0) =~= fed);
        assert(greedy(target, fed, m) =~= seq![] + greedy(target, fed, m));
    } else {
        let t = target(fed);
        let k = (n - 1) as nat;
        lemma_greedy_goes_on(target, fed.push(t), k, m);
        assert((n + m - 1) as nat == k + m);
        assert(fed.push(t) + greedy(target, fed.push(t), k) =~= fed + greedy(target, fed, n));
        assert(greedy(target, fed, n + m) =~= greedy(target, fed, n) + greedy(
            target,
            fed + greedy(target, fed, n),
            m,
        ));
    }
}

proof fn lemma_run_is_greedy(
    target: spec_fn(Seq<u32>) -> u32,
    ids: Seq<u32>,
    first: u32,
    made: Seq<PassMade>,
)
    requires
        run_answered(target, ids, first, made),
    ensures
        run_tokens(first, emitted_by(made)) == greedy(
            target,
            ids,
            run_tokens(first, emitted_by(made)).len(),
        ),
    decreases made.len(),
{
    reveal_with_fuel(greedy, 3);
    if made.len() == 0 {
        assert(run_tokens(first, emitted_by(made)) =~= seq![target(ids)]);
        assert(greedy(target, ids, 1) =~= seq![target(ids)]);
    } else {
        let before = made.drop_last();
        let m = made.last();
        let held = run_tokens(first, emitted_by(before));
        let more = pass_of(m.pos, m.verdict, m.stepped).1;
        let tokens = more.map_values(|e: Emitted| e.token);
        let fed = ids + held;
        lemma_run_is_greedy(target, ids, first, before);
        assert(run_tokens(first, emitted_by(made)) =~= held + tokens);
        assert(tokens =~= greedy(target, fed, tokens.len()));
        lemma_greedy_goes_on(target, ids, held.len(), tokens.len());
    }
}

/// Whatever is proposed, a finished run's tokens are the plain greedy run's:
/// `target` the engine's argmax after a text, `ids` the fed ids and `made` the
/// passes the run took.
pub proof fn law_a_drafted_run_is_the_greedy_run(
    target: spec_fn(Seq<u32>) -> u32,
    ids: Seq<u32>,
    r: DraftRun,
    made: Seq<PassMade>,
)
    requires
        r.wf(),
        !r.wants_more(),
        r.emitted@ == emitted_by(made),
        run_answered(target, ids, r.first, made),
    ensures
        run_tokens(r.first, r.emitted@).take(r.n_gen as int) == greedy(
            target,
            ids,
            r.n_gen as nat,
        ),
{
    let all = run_tokens(r.first, r.emitted@);
    let n = r.n_gen as nat;
    lemma_run_is_greedy(target, ids, r.first, made);
    lemma_greedy_goes_on(target, ids, n, (all.len() - n) as nat);
    assert(all.take(n as int) =~= greedy(target, ids, n));
}

// ------------------------------------------------------------ checked runs

/// One checked position: the first seam the probe found non-finite, the probe's
/// token and the engine's.
#[derive(Clone, Copy, Debug, PartialEq, Eq, Structural)]
pub struct FiniteRow {
    pub pos: u32,
    pub first: Option<Site>,
    pub observed: u32,
    pub stepped: u32,
}

/// A position's line, `read` the probe's reading: the eager argmax follows
/// where it is not the engine's token.
pub open spec fn row_text(r: FiniteRow, read: Seq<char>) -> Seq<char> {
    if r.observed != r.stepped {
        read + " eager_differs: observed "@ + decimal(r.observed as nat) + " engine "@ + decimal(
            r.stepped as nat,
        )
    } else {
        read
    }
}

/// The rows whose probe found a non-finite seam.
pub open spec fn nonfinite_rows(rows: Seq<FiniteRow>) -> nat
    decreases rows.len(),
{
    if rows.len() == 0 {
        0
    } else {
        nonfinite_rows(rows.drop_last()) + (if rows.last().first is Some {
            1nat
        } else {
            0
        })
    }
}

/// The rows whose probe's token is not the engine's.
pub open spec fn differing_rows(rows: Seq<FiniteRow>) -> nat
    decreases rows.len(),
{
    if rows.len() == 0 {
        0
    } else {
        differing_rows(rows.drop_last()) + (if rows.last().observed != rows.last().stepped {
            1nat
        } else {
            0
        })
    }
}

/// The first row from `at` on whose probe found a non-finite seam.
pub open spec fn first_row(rows: Seq<FiniteRow>, at: int) -> Option<int>
    decreases rows.len() - at,
{
    if at < 0 || at >= rows.len() {
        None
    } else if rows[at].first is Some {
        Some(at)
    } else {
        first_row(rows, at + 1)
    }
}

/// The summary line of the checked positions.
pub open spec fn finite_text(rows: Seq<FiniteRow>) -> Seq<char> {
    "stat finite summary positions="@ + decimal(rows.len()) + " nonfinite_positions="@ + decimal(
        nonfinite_rows(rows),
    ) + " first="@ + (match first_row(rows, 0) {
        None => "none"@,
        Some(i) => "pos "@ + decimal(rows[i].pos as nat) + " "@ + site_text(rows[i].first->0),
    }) + " eager_differs="@ + decimal(differing_rows(rows))
}

impl FiniteRow {
    /// The position's line.
    pub fn describe(&self, read: &str) -> (r: String)
        ensures
            r@ == row_text(*self, read@),
    {
        let mut out: Vec<char> = text::chars_of(read);
        if self.observed != self.stepped {
            text::push_str(&mut out, " eager_differs: observed ");
            text::push_decimal(&mut out, self.observed as u64);
            text::push_str(&mut out, " engine ");
            text::push_decimal(&mut out, self.stepped as u64);
        }
        text::string_of(out.as_slice())
    }

    /// Whether a fed position gets a line: it is not `ok`, or the probe's token
    /// is not the engine's.
    pub fn speaks(&self) -> (r: bool)
        ensures
            r == (self.first is Some || self.observed != self.stepped),
    {
        self.first.is_some() || self.observed != self.stepped
    }
}

/// The summary line of the checked positions.
pub fn finite_summary(rows: &[FiniteRow]) -> (r: String)
    ensures
        r@ == finite_text(rows@),
{
    let mut bad: usize = 0;
    let mut differs: usize = 0;
    let mut first: Option<usize> = None;
    let mut i: usize = 0;
    assert(rows@.take(0) =~= seq![]);
    while i < rows.len()
        invariant
            i <= rows@.len(),
            bad <= i,
            differs <= i,
            bad == nonfinite_rows(rows@.take(i as int)),
            differs == differing_rows(rows@.take(i as int)),
            match first {
                Some(k) => k < rows@.len() && rows@[k as int].first is Some && first_row(rows@, 0)
                    == Some(k as int),
                None => first_row(rows@, 0) == first_row(rows@, i as int),
            },
        decreases rows@.len() - i,
    {
        assert(rows@.take(i + 1).drop_last() =~= rows@.take(i as int));
        if rows[i].first.is_some() {
            bad += 1;
            if first.is_none() {
                first = Some(i);
            }
        }
        if rows[i].observed != rows[i].stepped {
            differs += 1;
        }
        i += 1;
    }
    assert(rows@.take(rows@.len() as int) =~= rows@);
    let mut out: Vec<char> = text::chars_of("stat finite summary positions=");
    text::push_decimal(&mut out, rows.len() as u64);
    text::push_str(&mut out, " nonfinite_positions=");
    text::push_decimal(&mut out, bad as u64);
    text::push_str(&mut out, " first=");
    let ghost head = out@;
    match first {
        None => {
            text::push_str(&mut out, "none");
        },
        Some(k) => {
            let row: FiniteRow = rows[k];
            text::push_str(&mut out, "pos ");
            text::push_decimal(&mut out, row.pos as u64);
            text::push_str(&mut out, " ");
            match row.first {
                Some(site) => {
                    text::push_str(&mut out, crate::finite::site_name(site).as_str());
                },
                None => {},
            }
            assert(out@ =~= head + ("pos "@ + decimal(row.pos as nat) + " "@ + site_text(
                row.first->0,
            )));
        },
    }
    text::push_str(&mut out, " eager_differs=");
    text::push_decimal(&mut out, differs as u64);
    assert(out@ =~= finite_text(rows@));
    text::string_of(out.as_slice())
}

// ------------------------------------------------------------ the plan and the feed

/// The layers of a plan that hold experts: the fewest and the most they hold,
/// and how many there are. Both are 0 where none does.
#[derive(Clone, Copy, Debug, PartialEq, Eq, Structural)]
pub struct HeldSpan {
    pub min: u64,
    pub max: u64,
    pub layers: usize,
}

/// The span of the first `n` layers.
pub open spec fn span_of(n_l: Seq<u64>, n: int) -> HeldSpan
    decreases n,
{
    if n <= 0 {
        HeldSpan { min: 0, max: 0, layers: 0 }
    } else {
        let s = span_of(n_l, n - 1);
        let x = n_l[n - 1];
        if x == 0 {
            s
        } else {
            HeldSpan {
                min: if s.layers == 0 || x < s.min {
                    x
                } else {
                    s.min
                },
                max: if x > s.max {
                    x
                } else {
                    s.max
                },
                layers: (s.layers + 1) as usize,
            }
        }
    }
}

/// The span of a plan's layers that hold experts.
pub fn held_span(n_l: &[u64]) -> (r: HeldSpan)
    ensures
        r == span_of(n_l@, n_l@.len() as int),
{
    let mut s: HeldSpan = HeldSpan { min: 0, max: 0, layers: 0 };
    let mut i: usize = 0;
    while i < n_l.len()
        invariant
            i <= n_l@.len(),
            s == span_of(n_l@, i as int),
            s.layers <= i,
        decreases n_l@.len() - i,
    {
        let x: u64 = n_l[i];
        if x > 0 {
            if s.layers == 0 || x < s.min {
                s.min = x;
            }
            if x > s.max {
                s.max = x;
            }
            s.layers = s.layers + 1;
        }
        i += 1;
    }
    s
}

/// A layer that holds experts holds between the fewest and the most.
pub proof fn law_a_layer_lies_in_the_span(n_l: Seq<u64>, n: int, i: int)
    requires
        0 <= i < n <= n_l.len() <= usize::MAX,
        n_l[i] > 0,
    ensures
        span_of(n_l, n).min <= n_l[i] <= span_of(n_l, n).max,
        span_of(n_l, n).layers > 0,
    decreases n,
{
    lemma_span_layers(n_l, n - 1);
    if i < n - 1 {
        law_a_layer_lies_in_the_span(n_l, n - 1, i);
    }
}

/// A span counts no more layers than there are.
proof fn lemma_span_layers(n_l: Seq<u64>, n: int)
    requires
        n <= n_l.len() <= usize::MAX,
    ensures
        0 <= span_of(n_l, n).layers,
        span_of(n_l, n).layers <= (if n <= 0 {
            0
        } else {
            n
        }),
    decreases n,
{
    if n > 0 {
        lemma_span_layers(n_l, n - 1);
    }
}

/// How the fed ids went in.
#[derive(Clone, Copy, Debug, PartialEq, Eq, Structural)]
pub enum FeedKind {
    /// In batches.
    Batch,
    /// One step an id.
    Steps,
    /// One step an id, each observed first.
    Checked,
    /// One step an id, each position's features into the draft.
    Dspark,
}

impl FeedKind {
    /// The kind, as the prompt's row prints it.
    pub open spec fn spelling(self) -> Seq<char> {
        match self {
            FeedKind::Batch => "batch"@,
            FeedKind::Steps => "steps"@,
            FeedKind::Checked => "checked"@,
            FeedKind::Dspark => "dspark"@,
        }
    }

    /// The kind's name.
    pub fn name(self) -> (r: &'static str)
        ensures
            r@ == self.spelling(),
    {
        match self {
            FeedKind::Batch => "batch",
            FeedKind::Steps => "steps",
            FeedKind::Checked => "checked",
            FeedKind::Dspark => "dspark",
        }
    }
}

/// How a plain feed goes in: the finite probe always feeds step by step.
pub fn feed_kind(checked: bool, batch: bool) -> (r: FeedKind)
    ensures
        r == (if checked {
            FeedKind::Checked
        } else if batch {
            FeedKind::Batch
        } else {
            FeedKind::Steps
        }),
{
    if checked {
        FeedKind::Checked
    } else if batch {
        FeedKind::Batch
    } else {
        FeedKind::Steps
    }
}

// ------------------------------------------------------------ what the flags and runs say

/// Each flag sets its own field and no other: a number to the number written in
/// base ten, the place and the mode to the one that is named.
pub proof fn law_a_flag_sets_its_field(v: ArgView, n: nat, at: int)
    requires
        n <= u32::MAX,
        n <= usize::MAX,
    ensures
        with_flag(v, "--prompt-id"@, decimal(n), at) == Ok::<ArgView, ArgError>(
            (ArgView { row: Some(n), ..v }),
        ),
        with_flag(v, "--tokens"@, decimal(n), at) == Ok::<ArgView, ArgError>(
            (ArgView { ids: Some(seq![n]), ..v }),
        ),
        with_flag(v, "--depth"@, decimal(n), at) == Ok::<ArgView, ArgError>(
            (ArgView { depth: Some(n), ..v }),
        ),
        with_flag(v, "-n"@, decimal(n), at) == Ok::<ArgView, ArgError>((ArgView { n_gen: n, ..v })),
        with_flag(v, "--ctx"@, decimal(n), at) == Ok::<ArgView, ArgError>((ArgView { ctx: n, ..v })),
        with_flag(v, "--warm"@, decimal(n), at) == Ok::<ArgView, ArgError>(
            (ArgView { warm: Some(n), ..v }),
        ),
        with_flag(v, "--place"@, "a"@, at) == Ok::<ArgView, ArgError>(
            (ArgView { place: Place::A, ..v }),
        ),
        with_flag(v, "--place"@, "gate"@, at) == Ok::<ArgView, ArgError>(
            (ArgView { place: Place::Gate, ..v }),
        ),
        with_flag(v, "--mode"@, "graph"@, at) == Ok::<ArgView, ArgError>(
            (ArgView { mode: StepMode::Graph, ..v }),
        ),
        with_flag(v, "--mode"@, "eager"@, at) == Ok::<ArgView, ArgError>(
            (ArgView { mode: StepMode::Eager, ..v }),
        ),
{
    reveal_strlit("--prompt-id");
    reveal_strlit("--tokens");
    reveal_strlit("--depth");
    reveal_strlit("-n");
    reveal_strlit("--ctx");
    reveal_strlit("--warm");
    reveal_strlit("--place");
    reveal_strlit("--mode");
    reveal_strlit("a");
    reveal_strlit("gate");
    reveal_strlit("graph");
    reveal_strlit("eager");
    text::law_number_reads_decimal(n, u32::MAX as nat);
    text::law_number_reads_decimal(n, usize::MAX as nat);
    text::law_an_id_list_reads_back(seq![], seq![], n, true);
    assert("--prompt-id"@.len() == 11 && "--tokens"@.len() == 8 && "--depth"@.len() == 7
        && "-n"@.len() == 2 && "--ctx"@.len() == 5 && "--warm"@.len() == 6 && "--place"@.len() == 7
        && "--mode"@.len() == 6 && "a"@.len() == 1 && "gate"@.len() == 4);
    assert("--depth"@[2] == 'd' && "--place"@[2] == 'p');
    assert("--warm"@[2] == 'w' && "--mode"@[2] == 'm');
    assert("graph"@[0] == 'g' && "eager"@[0] == 'e');
}

/// The flags are read from left to right: `--time` stands alone, and every other
/// flag takes the word behind it. What comes later overrides what came before.
pub proof fn law_flags_are_read_left_to_right(
    flag: Seq<char>,
    value: Seq<char>,
    rest: Seq<Seq<char>>,
    v: ArgView,
    w: ArgView,
    z: ArgView,
)
    requires
        flag != "--time"@,
    ensures
        args_from(seq![], 0, v) == Ok::<ArgView, ArgError>(v),
        args_from(seq![flag], 0, v) == Err::<ArgView, ArgError>(ArgError::NoValue(0)),
        args_from(rest, 0, (ArgView { timed: true, ..v })) == Ok::<ArgView, ArgError>(z)
            ==> args_from(seq!["--time"@] + rest, 0, v) == Ok::<ArgView, ArgError>(z),
        with_flag(v, flag, value, 0) == Ok::<ArgView, ArgError>(w) && args_from(rest, 0, w)
            == Ok::<ArgView, ArgError>(z) ==> args_from(seq![flag, value] + rest, 0, v) == Ok::<
            ArgView,
            ArgError,
        >(z),
{
    reveal_with_fuel(args_from, 2);
    let one = seq!["--time"@] + rest;
    let two = seq![flag, value] + rest;
    lemma_flags_shift(seq!["--time"@], rest, 0, (ArgView { timed: true, ..v }));
    lemma_flags_shift(seq![flag, value], rest, 0, w);
    assert(one[0] == "--time"@);
    assert(two[0] == flag && two[1] == value);
}

proof fn lemma_flags_shift(a: Seq<Seq<char>>, rest: Seq<Seq<char>>, at: int, v: ArgView)
    requires
        0 <= at,
    ensures
        args_from(rest, at, v) is Ok ==> args_from(a + rest, a.len() + at, v) == args_from(
            rest,
            at,
            v,
        ),
    decreases rest.len() - at,
{
    let s = a + rest;
    let i = a.len() + at;
    if at < rest.len() {
        assert(s[i] == rest[at]);
        if rest[at] == "--time"@ {
            lemma_flags_shift(a, rest, at + 1, (ArgView { timed: true, ..v }));
        } else if at + 1 < rest.len() {
            assert(s[i + 1] == rest[at + 1]);
            match with_flag(v, rest[at], rest[at + 1], at) {
                Ok(w) => {
                    assert(with_flag(v, rest[at], rest[at + 1], i) == Ok::<ArgView, ArgError>(w));
                    lemma_flags_shift(a, rest, at + 2, w);
                },
                Err(_) => {},
            }
        }
    }
}

/// The counts stand exactly where a token is asked for, a timed run has a step to
/// time, and the steps left out of the time are of a timed run and leave one in it.
pub proof fn law_the_counts_stand(n_gen: nat, timed: bool, warm: Option<nat>)
    ensures
        count_fault(n_gen, timed, warm) is None <==> {
            &&& 1 <= n_gen
            &&& timed ==> 2 <= n_gen
            &&& warm matches Some(w) ==> timed && w + 2 <= n_gen
        },
        count_fault(0, timed, warm) == Some(ArgError::NoTokens),
        count_fault(1, true, warm) == Some(ArgError::NothingTimed),
        n_gen > 0 && warm is Some ==> count_fault(n_gen, false, warm) == Some(ArgError::WarmUntimed),
{
}

/// A prompt is the third field of the first line that is neither empty nor a
/// comment: empty lines and comments before it change nothing, and nothing behind
/// it does.
pub proof fn law_a_prompt_is_the_first_rows_third_field(
    skipped: Seq<char>,
    a: Seq<char>,
    b: Seq<char>,
    id: nat,
    rest: Seq<char>,
)
    requires
        id <= u32::MAX,
        !skipped.contains('\n'),
        skipped.len() > 0 ==> skipped[0] == '#' && skipped.last() != '\r',
        !a.contains('\n'),
        !a.contains('\t'),
        !b.contains('\n'),
        !b.contains('\t'),
        a.len() > 0,
        a[0] != '#',
    ensures
        prompt_ids(skipped + seq!['\n'] + rest) == prompt_ids(rest),
        prompt_ids(
            a + seq!['\t'] + (b + seq!['\t'] + decimal(id)) + seq!['\n'] + rest,
        ) == Ok::<Seq<nat>, PromptError>(seq![id]),
        prompt_ids(seq![]) == Err::<Seq<nat>, PromptError>(PromptError::NoRow),
{
    text::law_a_newline_ends_a_line(skipped, rest);
    let all = text::lines(skipped + seq!['\n'] + rest);
    assert(all =~= seq![skipped] + text::lines(rest));
    assert(all[0] == skipped);
    lemma_row_line_shift(skipped, text::lines(rest), 0);
    let tail = b + seq!['\t'] + decimal(id);
    let row = a + seq!['\t'] + tail;
    text::lemma_decimal_value(id);
    assert forall|i: int| 0 <= i < row.len() implies row[i] != '\n' by {
        if i < a.len() {
            assert(row[i] == a[i]);
        } else if i > a.len() {
            let k = i - a.len() - 1;
            assert(row[i] == tail[k]);
            if k < b.len() {
                assert(tail[k] == b[k]);
            } else if k > b.len() {
                assert(tail[k] == decimal(id)[k - b.len() - 1]);
                assert(text::is_digit(decimal(id)[k - b.len() - 1]));
            }
        }
    }
    assert(row.last() == decimal(id).last());
    assert(text::is_digit(decimal(id)[decimal(id).len() - 1]));
    text::law_a_newline_ends_a_line(row, rest);
    let ls = text::lines(row + seq!['\n'] + rest);
    assert(ls =~= seq![row] + text::lines(rest));
    assert(ls[0] == row && row[0] == a[0]);
    assert(first_row_line(ls, 0) == Some(row));
    assert(!decimal(id).contains('\t')) by {
        assert forall|i: int| 0 <= i < decimal(id).len() implies decimal(id)[i] != '\t' by {
            assert(text::is_digit(decimal(id)[i]));
        }
    }
    text::law_a_separator_cuts(a, '\t', tail);
    text::law_a_separator_cuts(b, '\t', decimal(id));
    text::law_a_separator_cuts(decimal(id), '\t', seq![]);
    assert(text::split(row, '\t') =~= seq![a, b, decimal(id)]);
    text::law_an_id_list_reads_back(seq![], seq![], id, true);
    assert(text::lines(Seq::<char>::empty()).len() == 0);
}

proof fn lemma_row_line_shift(first: Seq<char>, rest: Seq<Seq<char>>, at: int)
    requires
        0 <= at,
    ensures
        first_row_line(seq![first] + rest, at + 1) == first_row_line(rest, at),
    decreases rest.len() - at,
{
    if at < rest.len() {
        assert((seq![first] + rest)[at + 1] == rest[at]);
        lemma_row_line_shift(first, rest, at + 1);
    }
}

/// A whole number becomes a double by rounding to the nearest multiple of its
/// spacing: below 2^53 it stays, and it never moves by more than half a spacing.
pub proof fn law_a_double_is_the_nearest(x: nat)
    ensures
        spacing(x) >= 1,
        as_double(x) % spacing(x) == 0,
        2 * (as_double(x) - x) <= spacing(x),
        2 * (x - as_double(x)) <= spacing(x),
        x < 0x20_0000_0000_0000 ==> as_double(x) == x,
        x >= 0x20_0000_0000_0000 ==> 0x10_0000_0000_0000 * spacing(x) <= x < 0x20_0000_0000_0000
            * spacing(x),
{
    lemma_spacing_bounds(x);
    let u = spacing(x);
    let q = x / u;
    let r = x % u;
    vstd::arithmetic::div_mod::lemma_fundamental_div_mod(x as int, u as int);
    assert(u * q == q * u) by (nonlinear_arith);
    assert((q + 1) * u == q * u + u) by (nonlinear_arith);
    vstd::arithmetic::div_mod::lemma_mod_multiples_basic(q as int, u as int);
    vstd::arithmetic::div_mod::lemma_mod_multiples_basic(q as int + 1, u as int);
}

proof fn lemma_spacing_bounds(x: nat)
    ensures
        spacing(x) >= 1,
        x >= 0x20_0000_0000_0000 ==> 0x10_0000_0000_0000 * spacing(x) <= x < 0x20_0000_0000_0000
            * spacing(x),
    decreases x,
{
    if x >= 0x20_0000_0000_0000 {
        lemma_spacing_bounds(x / 2);
        if x / 2 < 0x20_0000_0000_0000 {
            reveal_with_fuel(spacing, 2);
            assert(spacing(x / 2) == 1);
        }
    }
}

/// The depth's ids come of a multiplicative generator with no rounding where its
/// product fits a double; they repeat with the state every 90000 from 1000 on, and
/// a stretch of them is that stretch of all of them.
pub proof fn law_the_depths_ids_come_of_the_generator(s: nat, from: int, to: int, k: int)
    requires
        0 <= from <= to,
        0 <= k < to - from,
        s * 1_103_515_245 + 12_345 < 0x20_0000_0000_0000,
    ensures
        (s * 1_103_515_245 + 12_345 - depth_step(s)) % 0x8000_0000 == 0,
        depth_step(s) < 0x8000_0000,
        from > 0 ==> (depth_state(from) - (depth_id(from) - 1000)) % 90_000 == 0,
        depth_state(0) == 12_345,
        depth_state(from + 1) == depth_step(depth_state(from)),
        depth_span(from, to)[k] == depth_span(0, to)[from + k],
        depth_span(0, to)[from + k] == depth_id(from + k),
        depth_span(from, to).len() + from == depth_span(0, to).len(),
{
    law_a_double_is_the_nearest(s * 1_103_515_245);
    law_a_double_is_the_nearest(s * 1_103_515_245 + 12_345);
}

/// A pass emits as many tokens as it advances, at the positions that follow one
/// another from where it stood: an accepted pair its two, else one.
pub proof fn law_a_pass_emits_what_it_advances(
    pos: u32,
    verdict: Option<Verdict>,
    stepped: u32,
    k: int,
)
    requires
        pos < u32::MAX,
    ensures
        ({
            let (kind, out) = pass_of(pos, verdict, stepped);
            &&& out.len() == kind.advances()
            &&& 0 <= k < out.len() ==> out[k].pos == pos + k
            &&& verdict matches Some(Verdict::Accept(t)) ==> out.len() == 2 && out[0].token == t@[0]
                && out[1].token == t@[1]
            &&& verdict matches Some(Verdict::Reject(t)) ==> out.len() == 1 && out[0].token == t
            &&& verdict is None ==> out.len() == 1 && out[0].token == stepped
            &&& kind == PassKind::Plain <==> verdict is None
        }),
{
}

/// The passes that proposed are those that were not plain, and the accepted ones
/// those that were accepted, each counted once.
pub proof fn law_the_passes_are_counted(passes: Seq<PassKind>)
    ensures
        proposed(passes) == Set::new(
            |i: int| 0 <= i < passes.len() && passes[i] != PassKind::Plain,
        ).len(),
        accepted(passes) == Set::new(
            |i: int| 0 <= i < passes.len() && passes[i] == PassKind::Accept,
        ).len(),
{
    let n = passes.len() as int;
    let p = |i: int| passes[i] != PassKind::Plain;
    let q = |i: int| passes[i] == PassKind::Accept;
    lemma_proposed(passes, p);
    lemma_accepted(passes, q);
    crate::count::law_a_count_is_a_sets_size(n, p);
    crate::count::law_a_count_is_a_sets_size(n, q);
    assert(Set::new(|i: int| 0 <= i < n && p(i)) =~= Set::new(
        |i: int| 0 <= i < passes.len() && passes[i] != PassKind::Plain,
    ));
    assert(Set::new(|i: int| 0 <= i < n && q(i)) =~= Set::new(
        |i: int| 0 <= i < passes.len() && passes[i] == PassKind::Accept,
    ));
}


proof fn lemma_proposed(v: Seq<PassKind>, p: spec_fn(int) -> bool)
    requires
        forall|i: int| 0 <= i < v.len() ==> #[trigger] p(i) == (v[i] != PassKind::Plain),
    ensures
        proposed(v) == crate::count::count_where(v.len() as int, p),
    decreases v.len(),
{
    if v.len() > 0 {
        let w = v.drop_last();
        assert forall|i: int| 0 <= i < w.len() implies #[trigger] p(i) == (w[i] != PassKind::Plain) by {
            assert(w[i] == v[i]);
        }
        lemma_proposed(w, p);
        assert(p(v.len() - 1) == (v.last() != PassKind::Plain));
    }
}

proof fn lemma_accepted(v: Seq<PassKind>, p: spec_fn(int) -> bool)
    requires
        forall|i: int| 0 <= i < v.len() ==> #[trigger] p(i) == (v[i] == PassKind::Accept),
    ensures
        accepted(v) == crate::count::count_where(v.len() as int, p),
    decreases v.len(),
{
    if v.len() > 0 {
        let w = v.drop_last();
        assert forall|i: int| 0 <= i < w.len() implies #[trigger] p(i) == (w[i] == PassKind::Accept) by {
            assert(w[i] == v[i]);
        }
        lemma_accepted(w, p);
        assert(p(v.len() - 1) == (v.last() == PassKind::Accept));
    }
}

/// The positions that were not finite and those where the two tokens differ, each
/// counted once; the first of the former is the one that none comes before.
pub proof fn law_the_rows_are_counted(rows: Seq<FiniteRow>, i: int)
    requires
        0 <= i < rows.len(),
    ensures
        nonfinite_rows(rows) == Set::new(|k: int| 0 <= k < rows.len() && rows[k].first is Some).len(),
        differing_rows(rows) == Set::new(
            |k: int| 0 <= k < rows.len() && rows[k].observed != rows[k].stepped,
        ).len(),
        match first_row(rows, 0) {
            Some(f) => 0 <= f < rows.len() && rows[f].first is Some && (i < f ==> rows[i].first
                is None),
            None => rows[i].first is None,
        },
{
    let n = rows.len() as int;
    let p = |k: int| rows[k].first is Some;
    let q = |k: int| rows[k].observed != rows[k].stepped;
    lemma_nonfinite(rows, p);
    lemma_differing(rows, q);
    crate::count::law_a_count_is_a_sets_size(n, p);
    crate::count::law_a_count_is_a_sets_size(n, q);
    assert(Set::new(|k: int| 0 <= k < n && p(k)) =~= Set::new(
        |k: int| 0 <= k < rows.len() && rows[k].first is Some,
    ));
    assert(Set::new(|k: int| 0 <= k < n && q(k)) =~= Set::new(
        |k: int| 0 <= k < rows.len() && rows[k].observed != rows[k].stepped,
    ));
    lemma_first_row_is(rows, 0, i);
}

proof fn lemma_nonfinite(v: Seq<FiniteRow>, p: spec_fn(int) -> bool)
    requires
        forall|i: int| 0 <= i < v.len() ==> #[trigger] p(i) == (v[i].first is Some),
    ensures
        nonfinite_rows(v) == crate::count::count_where(v.len() as int, p),
    decreases v.len(),
{
    if v.len() > 0 {
        let w = v.drop_last();
        assert forall|i: int| 0 <= i < w.len() implies #[trigger] p(i) == (w[i].first is Some) by {
            assert(w[i] == v[i]);
        }
        lemma_nonfinite(w, p);
        assert(p(v.len() - 1) == (v.last().first is Some));
    }
}

proof fn lemma_differing(v: Seq<FiniteRow>, p: spec_fn(int) -> bool)
    requires
        forall|i: int| 0 <= i < v.len() ==> #[trigger] p(i) == (v[i].observed != v[i].stepped),
    ensures
        differing_rows(v) == crate::count::count_where(v.len() as int, p),
    decreases v.len(),
{
    if v.len() > 0 {
        let w = v.drop_last();
        assert forall|i: int| 0 <= i < w.len() implies #[trigger] p(i) == (w[i].observed != w[i].stepped) by {
            assert(w[i] == v[i]);
        }
        lemma_differing(w, p);
        assert(p(v.len() - 1) == (v.last().observed != v.last().stepped));
    }
}

proof fn lemma_first_row_is(rows: Seq<FiniteRow>, at: int, i: int)
    requires
        0 <= at <= i < rows.len(),
    ensures
        match first_row(rows, at) {
            Some(f) => at <= f < rows.len() && rows[f].first is Some && (i < f ==> rows[i].first
                is None),
            None => rows[i].first is None,
        },
    decreases rows.len() - at,
{
    if rows[at].first is None && at + 1 < rows.len() {
        lemma_first_row_is(
            rows,
            at + 1,
            if i > at {
                i
            } else {
                at + 1
            },
        );
    } else {
        reveal_with_fuel(first_row, 2);
    }
}

/// The ends of the span are held by layers, and the layers are those that hold
/// any.
pub proof fn law_the_spans_ends_are_held(n_l: Seq<u64>, n: int)
    requires
        0 <= n <= n_l.len() <= usize::MAX,
    ensures
        ({
            let s = span_of(n_l, n);
            &&& s.layers == Set::new(|i: int| 0 <= i < n && n_l[i] > 0).len()
            &&& s.layers == 0 ==> s.min == 0 && s.max == 0
            &&& s.layers > 0 ==> s.min > 0 && (exists|i: int| 0 <= i < n && #[trigger] n_l[i] == s.min)
                && (exists|i: int| 0 <= i < n && #[trigger] n_l[i] == s.max)
        }),
{
    lemma_span(n_l, n);
    let p = |i: int| n_l[i] > 0;
    crate::count::law_a_count_is_a_sets_size(n, p);
    assert(Set::new(|i: int| 0 <= i < n && p(i)) =~= Set::new(|i: int| 0 <= i < n && n_l[i] > 0));
}

proof fn lemma_span(n_l: Seq<u64>, n: int)
    requires
        0 <= n <= n_l.len() <= usize::MAX,
    ensures
        ({
            let s = span_of(n_l, n);
            &&& s.layers <= n
            &&& s.layers == crate::count::count_where(n, |i: int| n_l[i] > 0)
            &&& s.layers == 0 ==> s.min == 0 && s.max == 0
            &&& s.layers > 0 ==> s.min > 0 && (exists|i: int| 0 <= i < n && #[trigger] n_l[i] == s.min)
                && (exists|i: int| 0 <= i < n && #[trigger] n_l[i] == s.max)
        }),
    decreases n,
{
    if n > 0 {
        lemma_span(n_l, n - 1);
        let s = span_of(n_l, n - 1);
        if s.layers > 0 {
            let a = choose|i: int| 0 <= i < n - 1 && #[trigger] n_l[i] == s.min;
            let b = choose|i: int| 0 <= i < n - 1 && #[trigger] n_l[i] == s.max;
            assert(n_l[a] == s.min && n_l[b] == s.max);
        }
        let x = n_l[n - 1];
        assert(x == n_l[n - 1]);
    }
}

/// A position's line is its reading, and says both tokens where they differ.
pub proof fn law_a_rows_line_says_where_tokens_differ(r: FiniteRow, read: Seq<char>)
    ensures
        r.observed == r.stepped ==> row_text(r, read) == read,
        r.observed != r.stepped ==> {
            &&& text::opens_with(
                row_text(r, read),
                read + " eager_differs: observed "@ + decimal(r.observed as nat),
            )
            &&& text::ends_with(row_text(r, read), " engine "@ + decimal(r.stepped as nat))
        },
{
    if r.observed != r.stepped {
        let t = row_text(r, read);
        let a = read + " eager_differs: observed "@ + decimal(r.observed as nat);
        let z = " engine "@ + decimal(r.stepped as nat);
        assert(t =~= a + z);
        assert(t.take(a.len() as int) =~= a);
        assert(t.skip(t.len() - z.len()) =~= z);
    }
}

/// The summary says how many positions there were, how many were not finite and
/// the first of these with its site, and how many differed.
pub proof fn law_a_summary_says_the_first_site(rows: Seq<FiniteRow>, i: int)
    ensures
        text::opens_with(
            finite_text(rows),
            "stat finite summary positions="@ + decimal(rows.len()) + " nonfinite_positions="@
                + decimal(nonfinite_rows(rows)) + " first="@,
        ),
        text::ends_with(finite_text(rows), " eager_differs="@ + decimal(differing_rows(rows))),
        first_row(rows, 0) == Some(i) ==> text::ends_with(
            finite_text(rows),
            " first="@ + ("pos "@ + decimal(rows[i].pos as nat) + " "@ + site_text(rows[i].first->0))
                + " eager_differs="@ + decimal(differing_rows(rows)),
        ),
{
    let t = finite_text(rows);
    let a = "stat finite summary positions="@ + decimal(rows.len()) + " nonfinite_positions="@
        + decimal(nonfinite_rows(rows)) + " first="@;
    let z = " eager_differs="@ + decimal(differing_rows(rows));
    assert(t.take(a.len() as int) =~= a);
    assert(t.skip(t.len() - z.len()) =~= z);
    if first_row(rows, 0) == Some(i) {
        let m = " first="@ + ("pos "@ + decimal(rows[i].pos as nat) + " "@ + site_text(
            rows[i].first->0,
        )) + " eager_differs="@ + decimal(differing_rows(rows));
        assert(t.skip(t.len() - m.len()) =~= m);
    }
}

} // verus!
