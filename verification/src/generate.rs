//! The load-and-step loop a decode driver runs, without the device: which
//! placement the engine loads by, how it steps, and where a loaded model
//! stands. A driver asks before it feeds; what is refused is refused before any
//! step.
use crate::bits;
use crate::oracle::Arch;
use crate::text;
use vstd::prelude::*;

verus! {

/// Which placement the engine loads by.
#[derive(Debug, Clone, Copy, PartialEq, Eq, Structural)]
pub enum Place {
    /// The serving plan, on the A6000.
    A,
    /// The step gate's plan, on the 3090.
    Gate,
}

/// What a refused placement is answered.
pub open spec fn place_refusal(v: Seq<char>) -> Seq<char> {
    "--place is a or gate, not "@ + v
}

impl Place {
    /// The flag value.
    pub open spec fn spelling(self) -> Seq<char> {
        match self {
            Place::A => "a"@,
            Place::Gate => "gate"@,
        }
    }

    /// The flag value's placement: `a` or `gate`.
    pub fn parse(v: &str) -> (r: Result<Place, String>)
        ensures
            match r {
                Ok(p) => v@ == p.spelling(),
                Err(e) => v@ != Place::A.spelling() && v@ != Place::Gate.spelling() && e@
                    == place_refusal(v@),
            },
    {
        if text::same_str(v, "a") {
            Ok(Place::A)
        } else if text::same_str(v, "gate") {
            Ok(Place::Gate)
        } else {
            let mut out: Vec<char> = text::chars_of("--place is a or gate, not ");
            text::push_str(&mut out, v);
            Err(text::string_of(out.as_slice()))
        }
    }

    /// The flag value, as the `plan` and `load` lines print it.
    pub fn name(self) -> (r: &'static str)
        ensures
            r@ == self.spelling(),
    {
        match self {
            Place::A => "a",
            Place::Gate => "gate",
        }
    }
}

/// A placement's flag value names that placement and no other.
pub proof fn law_a_place_is_named_once(a: Place, b: Place)
    ensures
        a.spelling() == b.spelling() ==> a == b,
{
    reveal_strlit("a");
    reveal_strlit("gate");
    assert("a"@.len() == 1 && "gate"@.len() == 4);
}

/// How the engine steps.
#[derive(Debug, Clone, Copy, PartialEq, Eq, Structural)]
pub enum StepMode {
    /// Every launch enqueued anew.
    Eager,
    /// A captured graph replayed.
    Graph,
}

/// The step mode as the `load` line prints it.
pub fn mode_name(mode: StepMode) -> (r: &'static str)
    ensures
        r@ == (if mode == StepMode::Graph {
            "graph"@
        } else {
            "eager"@
        }),
{
    if mode == StepMode::Graph {
        "graph"
    } else {
        "eager"
    }
}

/// Why a model is not fed.
#[derive(Debug, Clone, Copy, PartialEq, Eq, Structural)]
pub enum FeedError {
    /// There is nothing to feed.
    Nothing,
    /// The context has no room for it.
    Full,
}

/// Where a loaded model stands, and the context it may reach.
#[derive(Debug, Clone, Copy)]
pub struct Stand {
    /// The position the next fed token lands in.
    pub pos: u64,
    /// The context the caches were sized for.
    pub ctx: u64,
}

impl Stand {
    /// A position never passes the context.
    pub open spec fn wf(self) -> bool {
        self.pos <= self.ctx
    }

    /// A model freshly loaded with a context.
    pub fn new(ctx: u64) -> (r: Stand)
        ensures
            r.pos == 0,
            r.ctx == ctx,
            r.wf(),
    {
        Stand { pos: 0, ctx }
    }

    /// Whether `n` ids may be fed from the current position, one step per id;
    /// if so the stand moves past them. Refused before any step when the ids
    /// do not fit the context.
    pub fn prefill(&mut self, n: usize) -> (r: Result<(), FeedError>)
        requires
            old(self).wf(),
        ensures
            final(self).wf(),
            final(self).ctx == old(self).ctx,
            match r {
                Ok(_) => n > 0 && final(self).pos == old(self).pos + n,
                Err(FeedError::Nothing) => n == 0 && final(self).pos == old(self).pos,
                Err(FeedError::Full) => n > 0 && old(self).pos + n > old(self).ctx
                    && final(self).pos == old(self).pos,
            },
    {
        if n == 0 {
            return Err(FeedError::Nothing);
        }
        if n as u64 > self.ctx - self.pos {
            return Err(FeedError::Full);
        }
        self.pos = self.pos + n as u64;
        Ok(())
    }

    /// Whether one token may be stepped at the current position; if so the
    /// stand moves past it.
    pub fn step(&mut self) -> (r: Result<(), FeedError>)
        requires
            old(self).wf(),
        ensures
            final(self).wf(),
            final(self).ctx == old(self).ctx,
            match r {
                Ok(_) => final(self).pos == old(self).pos + 1,
                Err(e) => e == FeedError::Full && old(self).pos == old(self).ctx
                    && final(self).pos == old(self).pos,
            },
    {
        if self.pos >= self.ctx {
            return Err(FeedError::Full);
        }
        self.pos = self.pos + 1;
        Ok(())
    }

    /// The model was reset: it stands at the start.
    pub fn reset(&mut self)
        ensures
            final(self).pos == 0,
            final(self).ctx == old(self).ctx,
            final(self).wf(),
    {
        self.pos = 0;
    }

    /// How many of at most `n` positions a rollback keeps, `answer` what the
    /// body grants. A body that does not answer grants nothing, and none
    /// grants more than was asked or than stands.
    pub fn keepable(&self, n: u64, answer: Option<u32>) -> (r: u64)
        ensures
            ({
                let most = if n <= self.pos {
                    n
                } else {
                    self.pos
                };
                r == (match answer {
                    None => 0,
                    Some(k) => if k as u64 <= most {
                        k as u64
                    } else {
                        most
                    },
                })
            }),
    {
        let most: u64 = if n <= self.pos {
            n
        } else {
            self.pos
        };
        match answer {
            None => 0,
            Some(k) => if k as u64 <= most {
                k as u64
            } else {
                most
            },
        }
    }

    /// What takes the positions from `n` on back.
    pub fn cut(&self, n: u64) -> (r: Cut)
        ensures
            r == (if n == self.pos {
                Cut::Nothing
            } else if n <= u32::MAX {
                Cut::Rollback(n as u32)
            } else {
                Cut::PastRange
            }),
    {
        if n == self.pos {
            Cut::Nothing
        } else if n <= u32::MAX as u64 {
            Cut::Rollback(n as u32)
        } else {
            Cut::PastRange
        }
    }
}

/// What a cut asks of the body.
#[derive(Debug, Clone, Copy, PartialEq, Eq, Structural)]
pub enum Cut {
    /// It stands there already.
    Nothing,
    /// Roll back to this position.
    Rollback(u32),
    /// The position is past what a body counts.
    PastRange,
}

/// What is wrong with a row of logits.
#[derive(Debug, Clone, Copy, PartialEq, Eq, Structural)]
pub enum LogitsError {
    /// The row is not as long as the vocabulary.
    Length,
    /// The logit at this index is NaN.
    Nan(usize),
}

/// The first NaN from `at` on.
pub open spec fn first_nan(row: Seq<u32>, at: int) -> Option<int>
    decreases row.len() - at,
{
    if at < 0 || at >= row.len() {
        None
    } else if bits::nan(row[at]) {
        Some(at)
    } else {
        first_nan(row, at + 1)
    }
}

/// Checks a row of logits, singles by their bits: a row of the wrong length or
/// one holding a NaN is the step's error, not the sampler's to absorb.
pub fn check_logits(row: &[u32], n_vocab: usize) -> (r: Result<(), LogitsError>)
    ensures
        r == (if row@.len() != n_vocab {
            Err::<(), LogitsError>(LogitsError::Length)
        } else {
            match first_nan(row@, 0) {
                Some(i) => Err(LogitsError::Nan(i as usize)),
                None => Ok(()),
            }
        }),
{
    if row.len() != n_vocab {
        return Err(LogitsError::Length);
    }
    let mut i: usize = 0;
    while i < row.len()
        invariant
            i <= row@.len() == n_vocab,
            first_nan(row@, 0) == first_nan(row@, i as int),
        decreases row@.len() - i,
    {
        if bits::is_nan(row[i]) {
            return Err(LogitsError::Nan(i));
        }
        i += 1;
    }
    Ok(())
}

// ------------------------------------------------------------ engines

/// The engines this library's drivers open, one per architecture they can run.
#[derive(Debug, Clone, Copy, PartialEq, Eq, Structural)]
pub enum Engine {
    Deepseek2,
    Qwen3moe,
}

/// The engine of a file's architecture; an architecture without one is refused
/// before anything is loaded.
pub fn engine_for(arch: Arch) -> (r: Result<Engine, Arch>)
    ensures
        r == (match arch {
            Arch::Deepseek2 => Ok::<Engine, Arch>(Engine::Deepseek2),
            Arch::Qwen3moe => Ok(Engine::Qwen3moe),
            Arch::Deepseek41 => Err(Arch::Deepseek41),
        }),
{
    match arch {
        Arch::Deepseek2 => Ok(Engine::Deepseek2),
        Arch::Qwen3moe => Ok(Engine::Qwen3moe),
        Arch::Deepseek41 => Err(Arch::Deepseek41),
    }
}

/// The first NaN of a row is one that none comes before, and a row with none
/// stands: a value is a NaN where its magnitude is past infinity's.
pub proof fn law_the_first_nan_is_first(row: Seq<u32>, at: int, i: int)
    requires
        0 <= at <= i < row.len(),
    ensures
        match first_nan(row, at) {
            Some(f) => at <= f < row.len() && row[f] % 0x8000_0000 > 0x7f80_0000 && (i < f ==> row[i]
                % 0x8000_0000 <= 0x7f80_0000),
            None => row[i] % 0x8000_0000 <= 0x7f80_0000,
        },
    decreases row.len() - at,
{
    bits::law_singles_order_as_their_values(row[at], 0);
    bits::law_singles_order_as_their_values(row[i], 0);
    if !bits::nan(row[at]) && at + 1 < row.len() {
        law_the_first_nan_is_first(
            row,
            at + 1,
            if i > at {
                i
            } else {
                at + 1
            },
        );
    } else {
        reveal_with_fuel(first_nan, 2);
    }
}

} // verus!
