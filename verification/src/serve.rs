//! The server's engine without its thread. The model lives on a thread of its
//! own and is asked by commands: [`begin`] says what a command asks of the
//! model where it stands, or why it is refused before anything runs, and
//! [`answer`] turns what the model gave into the reply. A logits read is checked
//! there: a row of the wrong length or one holding a NaN is the step's error,
//! not the sampler's to absorb.
use crate::generate::check_logits;
use crate::generate::first_nan;
use crate::generate::LogitsError;
use crate::generate::Stand;
use crate::text;
use crate::text::decimal;
use vstd::prelude::*;

verus! {

/// What the engine thread is asked to do.
#[derive(Debug, Clone)]
pub enum Cmd {
    /// Feed these ids from where the model stands.
    Prefill(Vec<u32>),
    /// Step on a token, and read the logits after it where they are asked for.
    Next { last: u32, logits: bool },
    Reset,
    /// Take back the positions from this one on.
    Rollback(u32),
    /// The longest prefix of at most this many positions a rollback keeps.
    Keep(usize),
}

/// What a command asks of the model.
#[derive(Debug, Clone, Copy, PartialEq, Eq, Structural)]
pub enum Action {
    /// Feed the command's ids.
    Feed,
    /// Step on a token, and read the logits where they are asked for.
    Step { last: u32, logits: bool },
    Reset,
    Rollback(u32),
}

/// How a command that failed at a position is told.
pub open spec fn fault_text(cmd: Cmd, at: u64, e: Seq<char>) -> Seq<char> {
    match cmd {
        Cmd::Prefill(ids) => "prefill of "@ + decimal(ids@.len()) + " ids from position "@
            + decimal(at as nat) + ": "@ + e,
        Cmd::Next { last, logits } => "step at position "@ + decimal(at as nat) + ": "@ + e,
        Cmd::Reset => "reset at position "@ + decimal(at as nat) + ": "@ + e,
        Cmd::Rollback(pos) => "rollback to position "@ + decimal(pos as nat) + " from "@ + decimal(
            at as nat,
        ) + ": "@ + e,
        Cmd::Keep(n) => "a keep query of "@ + decimal(n as nat)
            + " reached the step loop; the engine thread answers it"@,
    }
}

/// Why a command is refused where the model stands, before anything runs.
pub open spec fn refusal(s: Stand, cmd: Cmd) -> Option<Seq<char>> {
    match cmd {
        Cmd::Prefill(ids) => if ids@.len() == 0 || s.pos + ids@.len() > s.ctx {
            Some(
                fault_text(
                    cmd,
                    s.pos,
                    "the ids must be at least one and fit the context "@ + decimal(s.ctx as nat),
                ),
            )
        } else {
            None
        },
        Cmd::Next { last, logits } => if s.pos >= s.ctx {
            Some(
                fault_text(
                    cmd,
                    s.pos,
                    "step: the context "@ + decimal(s.ctx as nat) + " is full"@,
                ),
            )
        } else {
            None
        },
        Cmd::Reset => None,
        Cmd::Rollback(_) => None,
        Cmd::Keep(_) => Some(fault_text(cmd, s.pos, seq![])),
    }
}

/// What a command that is not refused asks of the model.
pub open spec fn asked(cmd: Cmd) -> Action {
    match cmd {
        Cmd::Prefill(_) => Action::Feed,
        Cmd::Next { last, logits } => Action::Step { last, logits },
        Cmd::Rollback(pos) => Action::Rollback(pos),
        Cmd::Reset => Action::Reset,
        Cmd::Keep(_) => Action::Reset,
    }
}

/// How a command that failed is told.
fn fault(cmd: &Cmd, at: u64, e: &str) -> (r: String)
    ensures
        r@ == fault_text(*cmd, at, e@),
{
    let mut out: Vec<char> = Vec::new();
    match cmd {
        Cmd::Prefill(ids) => {
            text::push_str(&mut out, "prefill of ");
            text::push_decimal(&mut out, ids.len() as u64);
            text::push_str(&mut out, " ids from position ");
            text::push_decimal(&mut out, at);
        },
        Cmd::Next { last, logits } => {
            text::push_str(&mut out, "step at position ");
            text::push_decimal(&mut out, at);
        },
        Cmd::Reset => {
            text::push_str(&mut out, "reset at position ");
            text::push_decimal(&mut out, at);
        },
        Cmd::Rollback(pos) => {
            text::push_str(&mut out, "rollback to position ");
            text::push_decimal(&mut out, *pos as u64);
            text::push_str(&mut out, " from ");
            text::push_decimal(&mut out, at);
        },
        Cmd::Keep(n) => {
            text::push_str(&mut out, "a keep query of ");
            text::push_decimal(&mut out, *n as u64);
            text::push_str(&mut out, " reached the step loop; the engine thread answers it");
            assert(out@ =~= fault_text(*cmd, at, e@));
            return text::string_of(out.as_slice());
        },
    }
    text::push_str(&mut out, ": ");
    text::push_str(&mut out, e);
    assert(out@ =~= fault_text(*cmd, at, e@));
    text::string_of(out.as_slice())
}

/// What a command asks of a model that stands at `s`, or how it is refused.
pub fn begin(s: &Stand, cmd: &Cmd) -> (r: Result<Action, String>)
    ensures
        match r {
            Ok(a) => refusal(*s, *cmd) is None && a == asked(*cmd),
            Err(e) => refusal(*s, *cmd) == Some(e@),
        },
{
    match cmd {
        Cmd::Prefill(ids) => {
            let n: u64 = ids.len() as u64;
            if n == 0 || s.pos > s.ctx || n > s.ctx - s.pos {
                let mut why: Vec<char> = text::chars_of(
                    "the ids must be at least one and fit the context ",
                );
                text::push_decimal(&mut why, s.ctx);
                return Err(fault(cmd, s.pos, text::string_of(why.as_slice()).as_str()));
            }
            Ok(Action::Feed)
        },
        Cmd::Next { last, logits } => {
            if s.pos >= s.ctx {
                let mut why: Vec<char> = text::chars_of("step: the context ");
                text::push_decimal(&mut why, s.ctx);
                text::push_str(&mut why, " is full");
                return Err(fault(cmd, s.pos, text::string_of(why.as_slice()).as_str()));
            }
            Ok(Action::Step { last: *last, logits: *logits })
        },
        Cmd::Reset => Ok(Action::Reset),
        Cmd::Rollback(pos) => Ok(Action::Rollback(*pos)),
        Cmd::Keep(_) => {
            let e: String = fault(cmd, s.pos, "");
            proof {
                reveal_strlit("");
                assert(""@ =~= Seq::<char>::empty());
            }
            Err(e)
        },
    }
}

/// What the model gave: the argmax of a feed or a step (of any other action
/// only whether it failed), and the row of logits that was read.
#[derive(Debug)]
pub struct Given {
    pub argmax: Result<u32, String>,
    pub row: Result<Vec<u32>, String>,
}

/// A reply: the argmax, and the logits where they were asked for.
pub ghost enum Reply {
    Fine(u32, Option<Seq<u32>>),
    Fault(Seq<char>),
}

/// What a row of logits is answered after a step at a position.
pub open spec fn row_reply(argmax: u32, row: Seq<u32>, at: u64, n_vocab: usize) -> Reply {
    if row.len() != n_vocab {
        Reply::Fault(
            "the head gave "@ + decimal(row.len()) + " logits at position "@ + decimal(at as nat)
                + ", the vocabulary has "@ + decimal(n_vocab as nat),
        )
    } else {
        match first_nan(row, 0) {
            Some(i) => Reply::Fault(
                "logit "@ + decimal(i as nat) + " is NaN after position "@ + decimal(at as nat),
            ),
            None => Reply::Fine(argmax, Some(row)),
        }
    }
}

/// The reply to a command that ran at a position.
pub open spec fn reply_of(cmd: Cmd, at: u64, n_vocab: usize, g: Given) -> Reply {
    match g.argmax {
        Err(e) => Reply::Fault(fault_text(cmd, at, e@)),
        Ok(t) => match cmd {
            Cmd::Prefill(_) => Reply::Fine(t, None),
            Cmd::Next { last, logits } => if !logits {
                Reply::Fine(t, None)
            } else {
                match g.row {
                    Err(e) => Reply::Fault(
                        "logits after position "@ + decimal(at as nat) + ": "@ + e@,
                    ),
                    Ok(row) => row_reply(t, row@, at, n_vocab),
                }
            },
            Cmd::Reset => Reply::Fine(0, None),
            Cmd::Rollback(_) => Reply::Fine(0, None),
            Cmd::Keep(_) => Reply::Fault(fault_text(cmd, at, seq![])),
        },
    }
}

/// What a reply says.
pub open spec fn said(r: Result<(u32, Option<Vec<u32>>), String>) -> Reply {
    match r {
        Ok((t, Some(row))) => Reply::Fine(t, Some(row@)),
        Ok((t, None)) => Reply::Fine(t, None),
        Err(e) => Reply::Fault(e@),
    }
}

/// A row of logits answered.
fn answer_row(argmax: u32, row: Vec<u32>, at: u64, n_vocab: usize) -> (r: Result<
    (u32, Option<Vec<u32>>),
    String,
>)
    ensures
        said(r) == row_reply(argmax, row@, at, n_vocab),
{
    let mut out: Vec<char> = Vec::new();
    match check_logits(row.as_slice(), n_vocab) {
        Ok(_) => Ok((argmax, Some(row))),
        Err(LogitsError::Length) => {
            text::push_str(&mut out, "the head gave ");
            text::push_decimal(&mut out, row.len() as u64);
            text::push_str(&mut out, " logits at position ");
            text::push_decimal(&mut out, at);
            text::push_str(&mut out, ", the vocabulary has ");
            text::push_decimal(&mut out, n_vocab as u64);
            assert(row@.len() != n_vocab);
            assert(Reply::Fault(out@) == row_reply(argmax, row@, at, n_vocab)) by {
                assert(out@ =~= "the head gave "@ + decimal(row@.len()) + " logits at position "@
                    + decimal(at as nat) + ", the vocabulary has "@ + decimal(n_vocab as nat));
            }
            Err(text::string_of(out.as_slice()))
        },
        Err(LogitsError::Nan(i)) => {
            text::push_str(&mut out, "logit ");
            text::push_decimal(&mut out, i as u64);
            text::push_str(&mut out, " is NaN after position ");
            text::push_decimal(&mut out, at);
            proof {
                lemma_nan_index(row@, 0);
                assert(out@ =~= "logit "@ + decimal(first_nan(row@, 0)->0 as nat)
                    + " is NaN after position "@ + decimal(at as nat));
            }
            Err(text::string_of(out.as_slice()))
        },
    }
}

/// A row's first NaN is one of its entries.
proof fn lemma_nan_index(row: Seq<u32>, at: int)
    requires
        0 <= at,
        row.len() <= usize::MAX,
    ensures
        first_nan(row, at) matches Some(i) ==> at <= i < row.len(),
    decreases row.len() - at,
{
    if at < row.len() {
        lemma_nan_index(row, at + 1);
    }
}

/// The reply to a command that ran where the model stood at position `at`.
pub fn answer(cmd: &Cmd, at: u64, n_vocab: usize, g: Given) -> (r: Result<
    (u32, Option<Vec<u32>>),
    String,
>)
    ensures
        said(r) == reply_of(*cmd, at, n_vocab, g),
{
    match g.argmax {
        Err(e) => Err(fault(cmd, at, e.as_str())),
        Ok(t) => match cmd {
            Cmd::Prefill(_) => Ok((t, None)),
            Cmd::Next { last, logits } => {
                if !*logits {
                    return Ok((t, None));
                }
                match g.row {
                    Err(e) => {
                        let mut out: Vec<char> = text::chars_of("logits after position ");
                        text::push_decimal(&mut out, at);
                        text::push_str(&mut out, ": ");
                        text::push_str(&mut out, e.as_str());
                        assert(out@ =~= "logits after position "@ + decimal(at as nat) + ": "@
                            + e@);
                        Err(text::string_of(out.as_slice()))
                    },
                    Ok(row) => answer_row(t, row, at, n_vocab),
                }
            },
            Cmd::Reset => Ok((0, None)),
            Cmd::Rollback(_) => Ok((0, None)),
            Cmd::Keep(_) => {
                let e: String = fault(cmd, at, "");
                proof {
                    reveal_strlit("");
                    assert(""@ =~= Seq::<char>::empty());
                }
                Err(e)
            },
        },
    }
}

/// Where a model stands after a command that was not refused and did not fail.
pub open spec fn stands_after(s: Stand, cmd: Cmd) -> int {
    match cmd {
        Cmd::Prefill(ids) => s.pos + ids@.len(),
        Cmd::Next { last, logits } => s.pos + 1,
        Cmd::Reset => 0,
        Cmd::Rollback(pos) => pos as int,
        Cmd::Keep(_) => s.pos as int,
    }
}

/// A feed or a step that is not refused never passes the context.
pub proof fn law_an_accepted_feed_fits(s: Stand, cmd: Cmd)
    requires
        s.wf(),
        refusal(s, cmd) is None,
        cmd is Prefill || cmd is Next,
    ensures
        s.pos < stands_after(s, cmd) <= s.ctx,
{
}

/// Logits that come back are a whole row without a NaN, and come only where
/// they were asked for.
pub proof fn law_logits_that_come_back_are_sound(cmd: Cmd, at: u64, n_vocab: usize, g: Given)
    ensures
        reply_of(cmd, at, n_vocab, g) matches Reply::Fine(_, Some(row)) ==> {
            &&& cmd matches Cmd::Next { logits, .. } && logits
            &&& row.len() == n_vocab
            &&& first_nan(row, 0) is None
        },
{
}

/// The answer to a keep query of at most `n` positions: the length the body
/// grants, where a position counts that far.
pub fn kept(granted: usize, n: usize) -> (r: Result<u32, String>)
    ensures
        match r {
            Ok(k) => k == granted,
            Err(e) => granted > u32::MAX && e@ == "a kept prefix of at most "@ + decimal(n as nat)
                + " passes u32"@,
        },
{
    if granted as u64 <= u32::MAX as u64 {
        Ok(granted as u32)
    } else {
        let mut out: Vec<char> = text::chars_of("a kept prefix of at most ");
        text::push_decimal(&mut out, n as u64);
        text::push_str(&mut out, " passes u32");
        Err(text::string_of(out.as_slice()))
    }
}

/// The handle the server holds of the engine thread.
#[derive(Debug, Clone)]
pub struct Handle {
    /// The device's name, for a crash report.
    pub card: String,
    /// The position the thread last said it stands at.
    pub pos: usize,
}

impl Handle {
    /// The command of a feed: none of no ids.
    pub fn prefill(&self, ids: &[u32]) -> (r: Option<Cmd>)
        ensures
            match r {
                Some(Cmd::Prefill(v)) => ids@.len() > 0 && v@ == ids@,
                Some(_) => false,
                None => ids@.len() == 0,
            },
    {
        if ids.len() == 0 {
            return None;
        }
        let mut v: Vec<u32> = Vec::new();
        let mut i: usize = 0;
        while i < ids.len()
            invariant
                i <= ids@.len(),
                v@ =~= ids@.take(i as int),
            decreases ids@.len() - i,
        {
            v.push(ids[i]);
            i += 1;
        }
        assert(v@ =~= ids@);
        Some(Cmd::Prefill(v))
    }

    /// Whether a caller's buffer of `room` values takes a row of `given`.
    pub fn fits(&self, room: usize, given: usize) -> (r: Result<(), String>)
        ensures
            match r {
                Ok(_) => room == given,
                Err(e) => room != given && e@ == "the caller's logits buffer holds "@ + decimal(
                    room as nat,
                ) + ", the head gave "@ + decimal(given as nat),
            },
    {
        if room == given {
            return Ok(());
        }
        let mut out: Vec<char> = text::chars_of("the caller's logits buffer holds ");
        text::push_decimal(&mut out, room as u64);
        text::push_str(&mut out, ", the head gave ");
        text::push_decimal(&mut out, given as u64);
        Err(text::string_of(out.as_slice()))
    }

    /// The handle in a crash report.
    pub fn describe(&self) -> (r: String)
        ensures
            r@ == "card="@ + self.card@ + " position="@ + decimal(self.pos as nat),
    {
        let mut out: Vec<char> = text::chars_of("card=");
        text::push_str(&mut out, self.card.as_str());
        text::push_str(&mut out, " position=");
        text::push_decimal(&mut out, self.pos as u64);
        text::string_of(out.as_slice())
    }
}

/// What a vocabulary has to name.
#[derive(Debug, Clone, Copy, PartialEq, Eq, Structural)]
pub struct Specials {
    pub bos: u32,
    pub eos: u32,
}

/// A vocabulary's special tokens; refused when it names no BOS or no EOS.
pub fn specials(bos: Option<u32>, eos: Option<u32>) -> (r: Result<Specials, &'static str>)
    ensures
        match r {
            Ok(s) => bos == Some(s.bos) && eos == Some(s.eos),
            Err(e) => if bos is None {
                e@ == "the vocabulary names no BOS token"@
            } else {
                eos is None && e@ == "the vocabulary names no EOS token"@
            },
        },
{
    match bos {
        None => Err("the vocabulary names no BOS token"),
        Some(b) => match eos {
            None => Err("the vocabulary names no EOS token"),
            Some(e) => Ok(Specials { bos: b, eos: e }),
        },
    }
}

/// What is asked of the engine is what the command says, and a command is refused
/// exactly where it feeds nothing, would leave the context, or is not the step
/// loop's.
pub proof fn law_a_command_is_refused_where_it_does_not_fit(s: Stand, cmd: Cmd)
    ensures
        refusal(s, cmd) is None <==> match cmd {
            Cmd::Prefill(ids) => 1 <= ids@.len() <= s.ctx - s.pos,
            Cmd::Next { last, logits } => 1 <= s.ctx - s.pos,
            Cmd::Reset => true,
            Cmd::Rollback(_) => true,
            Cmd::Keep(_) => false,
        },
        cmd matches Cmd::Prefill(_) ==> asked(cmd) == Action::Feed,
        cmd matches Cmd::Next { last, logits } ==> asked(cmd) == (Action::Step { last, logits }),
        cmd matches Cmd::Rollback(pos) ==> asked(cmd) == Action::Rollback(pos) && stands_after(
            s,
            cmd,
        ) == pos,
        cmd == Cmd::Reset ==> asked(cmd) == Action::Reset && stands_after(s, cmd) == 0,
        cmd matches Cmd::Prefill(ids) ==> stands_after(s, cmd) - s.pos == ids@.len(),
        cmd matches Cmd::Next { .. } ==> stands_after(s, cmd) - s.pos == 1,
{
}

/// A reply carries the token that the engine gave; with it the logits exactly where
/// they were asked for and sound; a fault where the engine faulted, where a row of
/// the wrong length came, or where the row holds a NaN.
pub proof fn law_a_reply_carries_what_the_engine_gave(
    at: u64,
    n_vocab: usize,
    g: Given,
    ids: Vec<u32>,
    last: u32,
    i: int,
)
    ensures
        g.argmax matches Ok(t) ==> {
            &&& reply_of(Cmd::Prefill(ids), at, n_vocab, g) == Reply::Fine(t, None)
            &&& reply_of((Cmd::Next { last, logits: false }), at, n_vocab, g) == Reply::Fine(t, None)
            &&& reply_of(Cmd::Reset, at, n_vocab, g) == Reply::Fine(0, None)
            &&& g.row matches Ok(row) ==> {
                let r = reply_of((Cmd::Next { last, logits: true }), at, n_vocab, g);
                &&& r is Fine ==> r == Reply::Fine(t, Some(row@))
                &&& r is Fine ==> row@.len() == n_vocab
                &&& r is Fine && 0 <= i < row@.len() ==> row@[i] % 0x8000_0000 <= 0x7f80_0000
                &&& row@.len() == n_vocab && (forall|k: int|
                    0 <= k < row@.len() ==> #[trigger] row@[k] % 0x8000_0000 <= 0x7f80_0000) ==> r is Fine
            }
            &&& g.row is Err ==> reply_of((Cmd::Next { last, logits: true }), at, n_vocab, g) is Fault
        },
        g.argmax is Err ==> reply_of(Cmd::Prefill(ids), at, n_vocab, g) is Fault && reply_of(
            Cmd::Reset,
            at,
            n_vocab,
            g,
        ) is Fault,
{
    if let Ok(row) = g.row {
        if 0 <= i < row@.len() {
            crate::generate::law_the_first_nan_is_first(row@, 0, i);
        }
        if row@.len() > 0 {
            crate::generate::law_the_first_nan_is_first(row@, 0, 0);
        }
        if let Some(f) = first_nan(row@, 0) {
            assert(row@.len() > 0);
            assert(row@[f] % 0x8000_0000 > 0x7f80_0000);
        }
    }
}

/// A fault says what was asked and where, and ends with its cause.
pub proof fn law_a_fault_ends_with_its_cause(cmd: Cmd, at: u64, e: Seq<char>)
    ensures
        !(cmd is Keep) ==> crate::text::ends_with(fault_text(cmd, at, e), ": "@ + e),
        cmd matches Cmd::Prefill(ids) ==> crate::text::opens_with(
            fault_text(cmd, at, e),
            "prefill of "@ + decimal(ids@.len()) + " ids from position "@ + decimal(at as nat),
        ),
        cmd matches Cmd::Next { .. } ==> crate::text::opens_with(
            fault_text(cmd, at, e),
            "step at position "@ + decimal(at as nat),
        ),
        cmd matches Cmd::Reset ==> crate::text::opens_with(
            fault_text(cmd, at, e),
            "reset at position "@ + decimal(at as nat),
        ),
        cmd matches Cmd::Rollback(pos) ==> crate::text::opens_with(
            fault_text(cmd, at, e),
            "rollback to position "@ + decimal(pos as nat) + " from "@ + decimal(at as nat),
        ),
{
    let t = fault_text(cmd, at, e);
    let z = ": "@ + e;
    let a = match cmd {
        Cmd::Prefill(ids) => "prefill of "@ + decimal(ids@.len()) + " ids from position "@ + decimal(
            at as nat,
        ),
        Cmd::Next { last, logits } => "step at position "@ + decimal(at as nat),
        Cmd::Reset => "reset at position "@ + decimal(at as nat),
        Cmd::Rollback(pos) => "rollback to position "@ + decimal(pos as nat) + " from "@ + decimal(
            at as nat,
        ),
        Cmd::Keep(_) => seq![],
    };
    if !(cmd is Keep) {
        assert(t =~= a + z);
        assert(t.take(a.len() as int) =~= a);
        assert(t.skip(t.len() - z.len()) =~= z);
    }
}

} // verus!
