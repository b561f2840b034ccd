//! What the decode drivers read off a command line, and the arms of their
//! comparison.
use crate::generate::StepMode;
use crate::prompts::PromptRow;
use crate::text;
use crate::text::id_list;
use crate::text::nats;
use crate::text::number;
use vstd::prelude::*;

verus! {

/// A flag has no value behind it.
#[derive(Clone, Copy, Debug, PartialEq, Eq, Structural)]
pub struct NoValue;

/// The first argument from `at` on that is a flag.
pub open spec fn first_flag(a: Seq<Seq<char>>, name: Seq<char>, at: int) -> Option<int>
    decreases a.len() - at,
{
    if at < 0 || at >= a.len() {
        None
    } else if a[at] == name {
        Some(at)
    } else {
        first_flag(a, name, at + 1)
    }
}

/// The last of the first `n` arguments that is a flag.
pub open spec fn last_flag(a: Seq<Seq<char>>, name: Seq<char>, n: int) -> Option<int>
    decreases n,
{
    if n <= 0 {
        None
    } else if a[n - 1] == name {
        Some(n - 1)
    } else {
        last_flag(a, name, n - 1)
    }
}

/// What stands behind the flag at an index.
pub open spec fn behind(a: Seq<Seq<char>>, at: Option<int>) -> Result<Option<Seq<char>>, NoValue> {
    match at {
        None => Ok(None),
        Some(i) => if i + 1 < a.len() {
            Ok(Some(a[i + 1]))
        } else {
            Err(NoValue)
        },
    }
}

/// A value, where there is one.
pub open spec fn opt_text(v: Option<String>) -> Option<Seq<char>> {
    match v {
        Some(s) => Some(s@),
        None => None,
    }
}

/// A value behind a flag, by its characters.
pub open spec fn found(r: Result<Option<String>, NoValue>) -> Result<Option<Seq<char>>, NoValue> {
    match r {
        Ok(v) => Ok(opt_text(v)),
        Err(e) => Err(e),
    }
}

/// The value behind the argument at an index.
fn value_at(a: &[String], i: usize) -> (r: Result<Option<String>, NoValue>)
    requires
        i < a@.len(),
    ensures
        found(r) == behind(text::strings(a@), Some(i as int)),
{
    let n: usize = a.len();
    if n - i > 1 {
        assert(text::strings(a@)[i + 1] == a@[i + 1]@);
        Ok(Some(text::string_of(text::chars_of(a[i + 1].as_str()).as_slice())))
    } else {
        Err(NoValue)
    }
}

/// The value behind the first occurrence of a flag, if it is given.
pub fn flag_value(a: &[String], name: &str) -> (r: Result<Option<String>, NoValue>)
    ensures
        found(r) == behind(text::strings(a@), first_flag(text::strings(a@), name@, 0)),
{
    let ghost all = text::strings(a@);
    let mut i: usize = 0;
    while i < a.len()
        invariant
            i <= a@.len(),
            all == text::strings(a@),
            first_flag(all, name@, 0) == first_flag(all, name@, i as int),
        decreases a@.len() - i,
    {
        assert(all[i as int] == a@[i as int]@);
        if text::same_str(a[i].as_str(), name) {
            return value_at(a, i);
        }
        i += 1;
    }
    Ok(None)
}

/// The value behind the last occurrence of a flag, if it is given. A flag that
/// ends the line has no value, whatever stood before.
pub fn last_value(a: &[String], name: &str) -> (r: Result<Option<String>, NoValue>)
    ensures
        found(r) == behind(
            text::strings(a@),
            last_flag(text::strings(a@), name@, a@.len() as int),
        ),
{
    let ghost all = text::strings(a@);
    let mut n: usize = a.len();
    while n > 0
        invariant
            n <= a@.len(),
            all == text::strings(a@),
            last_flag(all, name@, a@.len() as int) == last_flag(all, name@, n as int),
        decreases n,
    {
        n -= 1;
        assert(all[n as int] == a@[n as int]@);
        if text::same_str(a[n].as_str(), name) {
            return value_at(a, n);
        }
    }
    Ok(None)
}

/// Whether a flag is given.
pub fn has_flag(a: &[String], name: &str) -> (r: bool)
    ensures
        r == (first_flag(text::strings(a@), name@, 0) is Some),
{
    let ghost all = text::strings(a@);
    let mut i: usize = 0;
    while i < a.len()
        invariant
            i <= a@.len(),
            all == text::strings(a@),
            first_flag(all, name@, 0) == first_flag(all, name@, i as int),
        decreases a@.len() - i,
    {
        assert(all[i as int] == a@[i as int]@);
        if text::same_str(a[i].as_str(), name) {
            return true;
        }
        i += 1;
    }
    false
}

// ------------------------------------------------------------ launch shapes

/// A step's launch shape: each lever restores one merge to the launches it
/// replaced.
#[derive(Clone, Copy, Debug, PartialEq, Eq, Structural)]
pub struct StepProbe {
    pub pad_per_layer: u64,
    pub skip_quant: bool,
    pub split_heads: bool,
    pub split_kqvc: bool,
    pub split_flash_quant: bool,
    pub split_moe_quant: bool,
}

/// The shipped launch shape.
pub open spec fn shipped() -> StepProbe {
    StepProbe {
        pad_per_layer: 0,
        skip_quant: false,
        split_heads: false,
        split_kqvc: false,
        split_flash_quant: false,
        split_moe_quant: false,
    }
}

impl StepProbe {
    /// The shipped launch shape.
    pub fn base() -> (r: StepProbe)
        ensures
            r == shipped(),
    {
        StepProbe {
            pad_per_layer: 0,
            skip_quant: false,
            split_heads: false,
            split_kqvc: false,
            split_flash_quant: false,
            split_moe_quant: false,
        }
    }

    /// Whether the levers can be run together: splitting the kqvc quantize
    /// pair has no effect unless the flash quantize is split first, so alone it
    /// is refused rather than ignored.
    pub fn acts(&self) -> (r: bool)
        ensures
            r == (self.split_kqvc ==> self.split_flash_quant),
    {
        !self.split_kqvc || self.split_flash_quant
    }
}

/// The arms of the comparison: the shipped path, and each with merges restored.
pub open spec fn arm(a: int) -> StepProbe {
    StepProbe {
        split_flash_quant: a == 1 || a == 3,
        split_moe_quant: a == 2 || a == 3,
        ..shipped()
    }
}

/// The arms of the comparison and their names.
pub fn arms() -> (r: Vec<(&'static str, StepProbe)>)
    ensures
        r@.len() == 4,
        r@[0].0@ == "base"@,
        r@[1].0@ == "split_flash_quant"@,
        r@[2].0@ == "split_moe_quant"@,
        r@[3].0@ == "split_both"@,
        forall|a: int| 0 <= a < 4 ==> (#[trigger] r@[a]).1 == arm(a),
{
    let base: StepProbe = StepProbe::base();
    let mut flash: StepProbe = StepProbe::base();
    flash.split_flash_quant = true;
    let mut moe: StepProbe = StepProbe::base();
    moe.split_moe_quant = true;
    let mut both: StepProbe = StepProbe::base();
    both.split_flash_quant = true;
    both.split_moe_quant = true;
    let r: Vec<(&'static str, StepProbe)> = vec![
        ("base", base),
        ("split_flash_quant", flash),
        ("split_moe_quant", moe),
        ("split_both", both),
    ];
    r
}

/// The arm that runs in a slot of a round: the round's starting arm rotates, so
/// no arm keeps the first position.
pub fn arm_in(round: usize, slot: usize, n: usize) -> (r: usize)
    requires
        0 < n,
        slot < n,
    ensures
        r == (slot + round) % n as int,
        r < n,
{
    let a: u128 = slot as u128 + round as u128;
    (a % n as u128) as usize
}

/// A round runs every arm once: two slots of a round run different arms.
pub proof fn law_a_round_runs_every_arm(round: int, a: int, b: int, n: int)
    requires
        0 <= round,
        0 <= a < n,
        0 <= b < n,
        (a + round) % n == (b + round) % n,
    ensures
        a == b,
{
    vstd::arithmetic::div_mod::lemma_fundamental_div_mod(a + round, n);
    vstd::arithmetic::div_mod::lemma_fundamental_div_mod(b + round, n);
    let p = (a + round) / n;
    let q = (b + round) / n;
    assert(a - b == n * (p - q)) by (nonlinear_arith)
        requires
            a + round == n * p + (a + round) % n,
            b + round == n * q + (b + round) % n,
            (a + round) % n == (b + round) % n,
    ;
    assert(p == q) by (nonlinear_arith)
        requires
            a - b == n * (p - q),
            -n < a - b < n,
            0 < n,
    ;
}

/// An arm's place rotates: the arm of a slot runs one slot earlier a round
/// later.
pub proof fn law_arms_rotate(round: int, slot: int, n: int)
    requires
        0 <= round,
        0 < slot < n,
    ensures
        (slot + round) % n == ((slot - 1) + (round + 1)) % n,
{
}

// ------------------------------------------------------------ sources

/// Why a run of the qwen3moe driver is refused.
#[derive(Clone, Copy, Debug, PartialEq, Eq, Structural)]
pub enum RunError {
    /// Not exactly one of the prompt, the tokens and the depth is given.
    Sources,
    /// No counted step is left.
    NoStep,
    /// The prompt has no ids.
    NoIds,
    /// The tokens pass the context.
    Context,
}

/// What one source counts.
pub open spec fn one(given: bool) -> int {
    if given {
        1
    } else {
        0
    }
}

/// Whether a run of the qwen3moe driver may start before its ids are known:
/// exactly one source, and a counted step.
pub fn check_sources(
    prompt: bool,
    tokens: bool,
    seeded: bool,
    n_gen: u64,
    timed: bool,
    warm: u64,
) -> (r: Result<(), RunError>)
    ensures
        r == (if one(prompt) + one(tokens) + one(seeded) != 1 {
            Err::<(), RunError>(RunError::Sources)
        } else if n_gen == 0 || (timed && n_gen <= warm + 1) {
            Err(RunError::NoStep)
        } else {
            Ok(())
        }),
{
    let single: bool = (prompt && !tokens && !seeded) || (!prompt && tokens && !seeded) || (!prompt
        && !tokens && seeded);
    if !single {
        return Err(RunError::Sources);
    }
    if n_gen == 0 || (timed && n_gen - 1 <= warm) {
        return Err(RunError::NoStep);
    }
    Ok(())
}

/// Whether a run's ids fit: `seed` the depth the caches are filled to, in place
/// of the ids' own.
pub fn check_ids(n_ids: u64, seed: Option<u64>, n_gen: u64, ctx: u64) -> (r: Result<u64, RunError>)
    ensures
        ({
            let depth = match seed {
                Some(d) => d,
                None => n_ids,
            };
            r == (if n_ids == 0 {
                Err::<u64, RunError>(RunError::NoIds)
            } else if depth + n_gen > ctx {
                Err(RunError::Context)
            } else {
                Ok(depth)
            })
        }),
{
    if n_ids == 0 {
        return Err(RunError::NoIds);
    }
    let depth: u64 = match seed {
        Some(d) => d,
        None => n_ids,
    };
    if depth > ctx || n_gen > ctx - depth {
        return Err(RunError::Context);
    }
    Ok(depth)
}

// ------------------------------------------------------------ the decode driver

/// Why the decode driver's arguments are refused.
#[derive(Clone, Copy, Debug, PartialEq, Eq, Structural)]
pub enum DecodeError {
    /// A flag has no value behind it.
    NoValue,
    /// The mode is neither eager nor graph.
    Mode,
    /// A count is no number.
    Number,
    /// The tokens are no list of ids.
    Tokens,
    /// A lever would have no effect without another.
    Lever,
}

/// The decode driver's arguments.
#[derive(Debug)]
pub struct Decode {
    pub timed: bool,
    pub mode: StepMode,
    pub n_gen: u64,
    pub ctx: u64,
    /// The ids given, in place of a prompt's.
    pub tokens: Option<Vec<u32>>,
    /// The prompt whose ids are fed where none are given.
    pub prompt_id: u64,
    pub probe: StepProbe,
    /// The rounds of the comparison, where one is asked for.
    pub ab: Option<u64>,
}

/// What stands behind a flag's first occurrence.
pub open spec fn value_of(a: Seq<Seq<char>>, name: Seq<char>) -> Result<Option<Seq<char>>, NoValue> {
    behind(a, first_flag(a, name, 0))
}

/// A flag is given.
pub open spec fn given(a: Seq<Seq<char>>, name: Seq<char>) -> bool {
    first_flag(a, name, 0) is Some
}

/// The number behind a flag, a default where it is not given.
pub open spec fn count_of(a: Seq<Seq<char>>, name: Seq<char>, default: nat) -> Result<
    nat,
    DecodeError,
> {
    match value_of(a, name) {
        Err(_) => Err(DecodeError::NoValue),
        Ok(None) => Ok(default),
        Ok(Some(v)) => match number(v, u64::MAX as nat) {
            Some(n) => Ok(n),
            None => Err(DecodeError::Number),
        },
    }
}

/// The mode the arguments ask for: the graph unless they say eager.
pub open spec fn mode_of(a: Seq<Seq<char>>) -> Result<StepMode, DecodeError> {
    match value_of(a, "--mode"@) {
        Err(_) => Err(DecodeError::NoValue),
        Ok(None) => Ok(StepMode::Graph),
        Ok(Some(v)) => if v == "graph"@ {
            Ok(StepMode::Graph)
        } else if v == "eager"@ {
            Ok(StepMode::Eager)
        } else {
            Err(DecodeError::Mode)
        },
    }
}

/// The ids the arguments give, if they give any.
pub open spec fn tokens_of(a: Seq<Seq<char>>) -> Result<Option<Seq<nat>>, DecodeError> {
    match value_of(a, "--tokens"@) {
        Err(_) => Err(DecodeError::NoValue),
        Ok(None) => Ok(None),
        Ok(Some(v)) => match id_list(v, true) {
            Some(ids) => Ok(Some(ids)),
            None => Err(DecodeError::Tokens),
        },
    }
}

/// The rounds of the comparison the arguments ask for.
pub open spec fn rounds_of(a: Seq<Seq<char>>) -> Result<Option<nat>, DecodeError> {
    match value_of(a, "--ab"@) {
        Err(_) => Err(DecodeError::NoValue),
        Ok(None) => Ok(None),
        Ok(Some(v)) => match number(v, u64::MAX as nat) {
            Some(n) => Ok(Some(n)),
            None => Err(DecodeError::Number),
        },
    }
}

/// The launch shape the arguments ask for, `pad` launches of padding a layer.
pub open spec fn probe_of(a: Seq<Seq<char>>, pad: nat) -> StepProbe {
    StepProbe {
        pad_per_layer: pad as u64,
        skip_quant: given(a, "--probe-skip-quant"@),
        split_heads: given(a, "--probe-split-heads"@),
        split_kqvc: given(a, "--probe-split-kqvc"@),
        split_flash_quant: given(a, "--probe-split-flash-quant"@),
        split_moe_quant: given(a, "--probe-split-moe-quant"@),
    }
}

/// The decode driver's arguments, by their values.
pub ghost struct DecodeView {
    pub timed: bool,
    pub mode: StepMode,
    pub n_gen: nat,
    pub ctx: nat,
    pub tokens: Option<Seq<nat>>,
    pub prompt_id: nat,
    pub probe: StepProbe,
    pub ab: Option<nat>,
}

impl View for Decode {
    type V = DecodeView;

    open spec fn view(&self) -> DecodeView {
        DecodeView {
            timed: self.timed,
            mode: self.mode,
            n_gen: self.n_gen as nat,
            ctx: self.ctx as nat,
            tokens: match self.tokens {
                Some(v) => Some(nats(v@)),
                None => None,
            },
            prompt_id: self.prompt_id as nat,
            probe: self.probe,
            ab: match self.ab {
                Some(n) => Some(n as nat),
                None => None,
            },
        }
    }
}

/// The prompt's number the arguments name, 0 where the ids are given instead.
pub open spec fn prompt_id_of(a: Seq<Seq<char>>, ids_given: bool) -> Result<nat, DecodeError> {
    if ids_given {
        Ok(0)
    } else {
        count_of(a, "--prompt-id"@, 0)
    }
}

/// What the arguments ask for: 32 tokens in a context of 512 unless they say
/// otherwise.
pub open spec fn decode_of(a: Seq<Seq<char>>) -> Result<DecodeView, DecodeError> {
    match mode_of(a) {
        Err(e) => Err(e),
        Ok(mode) => match count_of(a, "-n"@, 32) {
            Err(e) => Err(e),
            Ok(n_gen) => match count_of(a, "--ctx"@, 512) {
                Err(e) => Err(e),
                Ok(ctx) => match tokens_of(a) {
                    Err(e) => Err(e),
                    Ok(tokens) => match prompt_id_of(a, tokens is Some) {
                        Err(e) => Err(e),
                        Ok(prompt_id) => match count_of(a, "--probe-pad"@, 0) {
                            Err(e) => Err(e),
                            Ok(pad) => {
                                let probe = probe_of(a, pad);
                                if probe.split_kqvc && !probe.split_flash_quant {
                                    Err(DecodeError::Lever)
                                } else {
                                    match rounds_of(a) {
                                        Err(e) => Err(e),
                                        Ok(ab) => Ok(
                                            DecodeView {
                                                timed: given(a, "--time"@),
                                                mode,
                                                n_gen,
                                                ctx,
                                                tokens,
                                                prompt_id,
                                                probe,
                                                ab,
                                            },
                                        ),
                                    }
                                }
                            },
                        },
                    },
                },
            },
        },
    }
}

/// The number behind a flag, if it is given.
fn count(a: &[String], name: &str) -> (r: Result<Option<u64>, DecodeError>)
    ensures
        match r {
            Ok(Some(n)) => forall|d: nat|
                count_of(text::strings(a@), name@, d) == Ok::<nat, DecodeError>(n as nat),
            Ok(None) => value_of(text::strings(a@), name@) == Ok::<Option<Seq<char>>, NoValue>(
                None,
            ),
            Err(e) => forall|d: nat|
                count_of(text::strings(a@), name@, d) == Err::<nat, DecodeError>(e),
        },
        r matches Ok(Some(n)) ==> (value_of(text::strings(a@), name@) matches Ok(Some(v))
            && number(v, u64::MAX as nat) == Some(n as nat)),
        r matches Err(e) ==> (match value_of(text::strings(a@), name@) {
            Err(_) => e == DecodeError::NoValue,
            Ok(Some(v)) => e == DecodeError::Number && number(v, u64::MAX as nat) is None,
            Ok(None) => false,
        }),
{
    match flag_value(a, name) {
        Err(_) => Err(DecodeError::NoValue),
        Ok(None) => Ok(None),
        Ok(Some(v)) => {
            match text::parse_number(text::chars_of(v.as_str()).as_slice(), u64::MAX) {
                Some(n) => Ok(Some(n)),
                None => Err(DecodeError::Number),
            }
        },
    }
}

/// The number behind a flag, a default where it is not given.
fn count_or(a: &[String], name: &str, default: u64) -> (r: Result<u64, DecodeError>)
    ensures
        match r {
            Ok(n) => count_of(text::strings(a@), name@, default as nat) == Ok::<nat, DecodeError>(
                n as nat,
            ),
            Err(e) => count_of(text::strings(a@), name@, default as nat) == Err::<
                nat,
                DecodeError,
            >(e),
        },
{
    match count(a, name) {
        Ok(Some(n)) => Ok(n),
        Ok(None) => Ok(default),
        Err(e) => Err(e),
    }
}

/// The mode the arguments ask for.
fn mode(a: &[String]) -> (r: Result<StepMode, DecodeError>)
    ensures
        r == mode_of(text::strings(a@)),
{
    match flag_value(a, "--mode") {
        Err(_) => Err(DecodeError::NoValue),
        Ok(None) => Ok(StepMode::Graph),
        Ok(Some(v)) => if text::same_str(v.as_str(), "graph") {
            Ok(StepMode::Graph)
        } else if text::same_str(v.as_str(), "eager") {
            Ok(StepMode::Eager)
        } else {
            Err(DecodeError::Mode)
        },
    }
}

/// The ids the arguments give.
fn tokens(a: &[String]) -> (r: Result<Option<Vec<u32>>, DecodeError>)
    ensures
        match r {
            Ok(Some(v)) => tokens_of(text::strings(a@)) == Ok::<Option<Seq<nat>>, DecodeError>(
                Some(nats(v@)),
            ),
            Ok(None) => tokens_of(text::strings(a@)) == Ok::<Option<Seq<nat>>, DecodeError>(None),
            Err(e) => tokens_of(text::strings(a@)) == Err::<Option<Seq<nat>>, DecodeError>(e),
        },
{
    match flag_value(a, "--tokens") {
        Err(_) => Err(DecodeError::NoValue),
        Ok(None) => Ok(None),
        Ok(Some(v)) => match text::parse_ids(text::chars_of(v.as_str()).as_slice(), true) {
            Some(ids) => Ok(Some(ids)),
            None => Err(DecodeError::Tokens),
        },
    }
}

/// The decode driver's arguments.
pub fn parse_decode(a: &[String]) -> (r: Result<Decode, DecodeError>)
    ensures
        match r {
            Ok(d) => decode_of(text::strings(a@)) == Ok::<DecodeView, DecodeError>(d@),
            Err(e) => decode_of(text::strings(a@)) == Err::<DecodeView, DecodeError>(e),
        },
{
    let mode: StepMode = match mode(a) {
        Ok(m) => m,
        Err(e) => {
            return Err(e);
        },
    };
    let n_gen: u64 = match count_or(a, "-n", 32) {
        Ok(n) => n,
        Err(e) => {
            return Err(e);
        },
    };
    let ctx: u64 = match count_or(a, "--ctx", 512) {
        Ok(n) => n,
        Err(e) => {
            return Err(e);
        },
    };
    let ids: Option<Vec<u32>> = match tokens(a) {
        Ok(t) => t,
        Err(e) => {
            return Err(e);
        },
    };
    let prompt_id: u64 = match ids {
        Some(_) => 0,
        None => match count_or(a, "--prompt-id", 0) {
            Ok(n) => n,
            Err(e) => {
                return Err(e);
            },
        },
    };
    let pad: u64 = match count_or(a, "--probe-pad", 0) {
        Ok(n) => n,
        Err(e) => {
            return Err(e);
        },
    };
    let probe: StepProbe = StepProbe {
        pad_per_layer: pad,
        skip_quant: has_flag(a, "--probe-skip-quant"),
        split_heads: has_flag(a, "--probe-split-heads"),
        split_kqvc: has_flag(a, "--probe-split-kqvc"),
        split_flash_quant: has_flag(a, "--probe-split-flash-quant"),
        split_moe_quant: has_flag(a, "--probe-split-moe-quant"),
    };
    if !probe.acts() {
        return Err(DecodeError::Lever);
    }
    let ab: Option<u64> = match count(a, "--ab") {
        Ok(n) => n,
        Err(e) => {
            return Err(e);
        },
    };
    Ok(
        Decode {
            timed: has_flag(a, "--time"),
            mode,
            n_gen,
            ctx,
            tokens: ids,
            prompt_id,
            probe,
            ab,
        },
    )
}

/// The first prompt from `at` on with a number.
pub open spec fn prompt_at(rows: Seq<PromptRow>, id: int, at: int) -> Option<int>
    decreases rows.len() - at,
{
    if at < 0 || at >= rows.len() {
        None
    } else if rows[at].id == id {
        Some(at)
    } else {
        prompt_at(rows, id, at + 1)
    }
}

/// The index of the first prompt with a number.
pub fn find_prompt(rows: &[PromptRow], id: u64) -> (r: Option<usize>)
    ensures
        match r {
            Some(i) => i < rows@.len() && prompt_at(rows@, id as int, 0) == Some(i as int),
            None => prompt_at(rows@, id as int, 0) is None,
        },
{
    let mut i: usize = 0;
    while i < rows.len()
        invariant
            i <= rows@.len(),
            prompt_at(rows@, id as int, 0) == prompt_at(rows@, id as int, i as int),
        decreases rows@.len() - i,
    {
        if rows[i].id as u64 == id {
            return Some(i);
        }
        i += 1;
    }
    None
}

/// Why a comparison of the arms is refused.
#[derive(Clone, Copy, Debug, PartialEq, Eq, Structural)]
pub enum AbError {
    /// No round is asked for.
    Rounds,
    /// No step is left to time.
    Steps,
}

/// Whether a comparison of the arms has a round to run and a step to time.
pub fn check_ab(rounds: u64, n_gen: u64) -> (r: Result<(), AbError>)
    ensures
        r == (if rounds == 0 {
            Err::<(), AbError>(AbError::Rounds)
        } else if n_gen < 2 {
            Err(AbError::Steps)
        } else {
            Ok(())
        }),
{
    if rounds == 0 {
        Err(AbError::Rounds)
    } else if n_gen < 2 {
        Err(AbError::Steps)
    } else {
        Ok(())
    }
}

// ------------------------------------------------------------ what the flags say

/// A flag's value is the word behind its first place, or behind its last where the
/// last one counts; a flag that does not occur has none, and one with nothing
/// behind it is refused.
pub proof fn law_a_value_stands_behind_its_flag(a: Seq<Seq<char>>, name: Seq<char>, i: int)
    requires
        0 <= i < a.len(),
        a[i] == name,
    ensures
        (forall|k: int| 0 <= k < i ==> a[k] != name) && i + 1 < a.len() ==> value_of(a, name) == Ok::<
            Option<Seq<char>>,
            NoValue,
        >(Some(a[i + 1])),
        (forall|k: int| 0 <= k < i ==> a[k] != name) && i + 1 == a.len() ==> value_of(a, name)
            is Err,
        (forall|k: int| i < k < a.len() ==> a[k] != name) && i + 1 < a.len() ==> behind(
            a,
            last_flag(a, name, a.len() as int),
        ) == Ok::<Option<Seq<char>>, NoValue>(Some(a[i + 1])),
        given(a, name),
{
    if forall|k: int| 0 <= k < i ==> a[k] != name {
        lemma_first_flag_is(a, name, 0, i);
    }
    if forall|k: int| i < k < a.len() ==> a[k] != name {
        lemma_last_flag_is(a, name, a.len() as int, i);
    }
    lemma_flag_is_given(a, name, 0, i);
}

/// A flag that does not occur is not given and has no value.
pub proof fn law_a_flag_left_out_has_no_value(a: Seq<Seq<char>>, name: Seq<char>, default: nat)
    requires
        forall|k: int| 0 <= k < a.len() ==> a[k] != name,
    ensures
        !given(a, name),
        value_of(a, name) == Ok::<Option<Seq<char>>, NoValue>(None),
        behind(a, last_flag(a, name, a.len() as int)) == Ok::<Option<Seq<char>>, NoValue>(None),
        count_of(a, name, default) == Ok::<nat, DecodeError>(default),
{
    lemma_no_first_flag(a, name, 0);
    lemma_no_last_flag(a, name, a.len() as int);
}

proof fn lemma_first_flag_is(a: Seq<Seq<char>>, name: Seq<char>, at: int, i: int)
    requires
        0 <= at <= i < a.len(),
        a[i] == name,
        forall|k: int| 0 <= k < i ==> a[k] != name,
    ensures
        first_flag(a, name, at) == Some(i),
    decreases i - at,
{
    if at < i {
        lemma_first_flag_is(a, name, at + 1, i);
    }
}

proof fn lemma_flag_is_given(a: Seq<Seq<char>>, name: Seq<char>, at: int, i: int)
    requires
        0 <= at <= i < a.len(),
        a[i] == name,
    ensures
        first_flag(a, name, at) is Some,
    decreases i - at,
{
    if at < i {
        lemma_flag_is_given(a, name, at + 1, i);
    }
}

proof fn lemma_last_flag_is(a: Seq<Seq<char>>, name: Seq<char>, n: int, i: int)
    requires
        0 <= i < n <= a.len(),
        a[i] == name,
        forall|k: int| i < k < a.len() ==> a[k] != name,
    ensures
        last_flag(a, name, n) == Some(i),
    decreases n - i,
{
    if i < n - 1 {
        lemma_last_flag_is(a, name, n - 1, i);
    }
}

proof fn lemma_no_first_flag(a: Seq<Seq<char>>, name: Seq<char>, at: int)
    requires
        0 <= at,
        forall|k: int| 0 <= k < a.len() ==> a[k] != name,
    ensures
        first_flag(a, name, at) is None,
    decreases a.len() - at,
{
    if at < a.len() {
        lemma_no_first_flag(a, name, at + 1);
    }
}

proof fn lemma_no_last_flag(a: Seq<Seq<char>>, name: Seq<char>, n: int)
    requires
        n <= a.len(),
        forall|k: int| 0 <= k < a.len() ==> a[k] != name,
    ensures
        last_flag(a, name, n) is None,
    decreases n,
{
    if n > 0 {
        lemma_no_last_flag(a, name, n - 1);
    }
}

/// A field that a flag writes in base ten holds that number, one whose flag is left
/// out its default: 32 tokens, a context of 512, the first prompt, no padding and
/// no rounds.
pub proof fn law_a_decodes_field_is_its_flags(a: Seq<Seq<char>>, d: DecodeView, n: nat, i: int)
    requires
        decode_of(a) == Ok::<DecodeView, DecodeError>(d),
        0 <= i < a.len() - 1,
        a[i + 1] == text::decimal(n),
        n <= u64::MAX,
        forall|k: int| 0 <= k < i ==> a[k] != a[i],
    ensures
        a[i] == "-n"@ ==> d.n_gen == n,
        a[i] == "--ctx"@ ==> d.ctx == n,
        a[i] == "--prompt-id"@ && d.tokens is None ==> d.prompt_id == n,
        a[i] == "--probe-pad"@ ==> d.probe.pad_per_layer == n,
        a[i] == "--ab"@ ==> d.ab == Some(n),
        a[i] == "--tokens"@ && n <= u32::MAX ==> d.tokens == Some(seq![n]),
        (forall|k: int| 0 <= k < a.len() ==> a[k] != "-n"@) ==> d.n_gen == 32,
        (forall|k: int| 0 <= k < a.len() ==> a[k] != "--ctx"@) ==> d.ctx == 512,
        (forall|k: int| 0 <= k < a.len() ==> a[k] != "--prompt-id"@) ==> d.prompt_id == 0,
        (forall|k: int| 0 <= k < a.len() ==> a[k] != "--probe-pad"@) ==> d.probe.pad_per_layer == 0,
        (forall|k: int| 0 <= k < a.len() ==> a[k] != "--ab"@) ==> d.ab is None,
        (forall|k: int| 0 <= k < a.len() ==> a[k] != "--tokens"@) ==> d.tokens is None,
        (forall|k: int| 0 <= k < a.len() ==> a[k] != "--mode"@) ==> d.mode == StepMode::Graph,
{
    lemma_first_flag_is(a, a[i], 0, i);
    text::law_number_reads_decimal(n, u64::MAX as nat);
    if n <= u32::MAX {
        text::law_an_id_list_reads_back(seq![], seq![], n, true);
    }
    if forall|k: int| 0 <= k < a.len() ==> a[k] != "-n"@ {
        lemma_no_first_flag(a, "-n"@, 0);
    }
    if forall|k: int| 0 <= k < a.len() ==> a[k] != "--ctx"@ {
        lemma_no_first_flag(a, "--ctx"@, 0);
    }
    if forall|k: int| 0 <= k < a.len() ==> a[k] != "--prompt-id"@ {
        lemma_no_first_flag(a, "--prompt-id"@, 0);
    }
    if forall|k: int| 0 <= k < a.len() ==> a[k] != "--probe-pad"@ {
        lemma_no_first_flag(a, "--probe-pad"@, 0);
    }
    if forall|k: int| 0 <= k < a.len() ==> a[k] != "--ab"@ {
        lemma_no_first_flag(a, "--ab"@, 0);
    }
    if forall|k: int| 0 <= k < a.len() ==> a[k] != "--tokens"@ {
        lemma_no_first_flag(a, "--tokens"@, 0);
    }
    if forall|k: int| 0 <= k < a.len() ==> a[k] != "--mode"@ {
        lemma_no_first_flag(a, "--mode"@, 0);
    }
}

/// A switch is on exactly where its flag occurs, and the split of the products is
/// never on without the split of the flash quantisation.
pub proof fn law_a_decodes_switch_is_its_flag(a: Seq<Seq<char>>, d: DecodeView)
    requires
        decode_of(a) == Ok::<DecodeView, DecodeError>(d),
    ensures
        d.timed <==> a.contains("--time"@),
        d.probe.skip_quant <==> a.contains("--probe-skip-quant"@),
        d.probe.split_heads <==> a.contains("--probe-split-heads"@),
        d.probe.split_kqvc <==> a.contains("--probe-split-kqvc"@),
        d.probe.split_flash_quant <==> a.contains("--probe-split-flash-quant"@),
        d.probe.split_moe_quant <==> a.contains("--probe-split-moe-quant"@),
        d.probe.split_kqvc ==> d.probe.split_flash_quant,
{
    lemma_given_is_contained(a, "--time"@);
    lemma_given_is_contained(a, "--probe-skip-quant"@);
    lemma_given_is_contained(a, "--probe-split-heads"@);
    lemma_given_is_contained(a, "--probe-split-kqvc"@);
    lemma_given_is_contained(a, "--probe-split-flash-quant"@);
    lemma_given_is_contained(a, "--probe-split-moe-quant"@);
}

proof fn lemma_given_is_contained(a: Seq<Seq<char>>, name: Seq<char>)
    ensures
        given(a, name) <==> a.contains(name),
{
    if a.contains(name) {
        let i = choose|i: int| 0 <= i < a.len() && a[i] == name;
        lemma_flag_is_given(a, name, 0, i);
    } else {
        assert forall|k: int| 0 <= k < a.len() implies a[k] != name by {
            assert(a.contains(a[k]));
        }
        lemma_no_first_flag(a, name, 0);
    }
}

/// The arms: the first is what ships, each of the next two differs from it in one
/// split, and the last has both.
pub proof fn law_the_arms_part_the_splits(a: int)
    requires
        0 <= a < 4,
    ensures
        arm(a).split_flash_quant == (a % 2 == 1),
        arm(a).split_moe_quant == (a >= 2),
        !arm(a).skip_quant && !arm(a).split_heads && !arm(a).split_kqvc,
        arm(a).pad_per_layer == 0,
        arm(0) == shipped(),
{
}

/// The prompt of an id is the first row that has it.
pub proof fn law_a_prompt_is_its_ids_first_row(rows: Seq<PromptRow>, id: int, at: int, i: int)
    requires
        0 <= at <= i < rows.len(),
    ensures
        match prompt_at(rows, id, at) {
            Some(f) => at <= f < rows.len() && rows[f].id == id && (i < f ==> rows[i].id != id),
            None => rows[i].id != id,
        },
    decreases rows.len() - at,
{
    if rows[at].id != id && at + 1 < rows.len() {
        law_a_prompt_is_its_ids_first_row(
            rows,
            id,
            at + 1,
            if i > at {
                i
            } else {
                at + 1
            },
        );
    } else {
        reveal_with_fuel(prompt_at, 2);
    }
}

/// Three sources are one where exactly one of them is given.
pub proof fn law_one_source_is_given(a: bool, b: bool, c: bool)
    ensures
        one(a) + one(b) + one(c) == 1 <==> (a && !b && !c) || (!a && b && !c) || (!a && !b && c),
{
}

} // verus!
