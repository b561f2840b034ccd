//! The draft a decode serves one token ahead, without the two devices: what a
//! pass verifies, how many of its positions stay, and when the draft is fed.
//!
//! Per pass the draft proposes a token after `next`, the target runs the pair
//! `[next, draft]`; row A's argmax equal to the draft accepts both positions
//! and both rows' features are appended, otherwise the second position is
//! taken back and row A's features alone are appended. The proposal changes
//! which passes run, never a token: every emitted token is the target's own
//! argmax, so the tokens are the plain greedy run's.
use crate::text;
use vstd::prelude::*;

verus! {

/// The block width every proposal is pinned to.
pub const WIDTH: usize = 1;

/// What one pass verified.
#[derive(Clone, Copy, Debug, PartialEq, Eq)]
pub enum Verdict {
    /// Row A's argmax was the proposal: row A's and row B's tokens.
    Accept([u32; 2]),
    /// It was not: row A's token; the second position was taken back.
    Reject(u32),
}

/// The tokens a verdict emits.
pub open spec fn emitted(v: Verdict) -> Seq<u32> {
    match v {
        Verdict::Accept(t) => t@,
        Verdict::Reject(t) => seq![t],
    }
}

/// The draft has other positions than the target stands at.
#[derive(Clone, Copy, Debug, PartialEq, Eq, Structural)]
pub struct Skew;

/// What a pass leaves to do: the verdict, the rows whose features the draft
/// takes, and the position the target is rolled back to, if it is.
#[derive(Clone, Copy, Debug, PartialEq, Eq)]
pub struct Passed {
    pub verdict: Verdict,
    pub rows: u32,
    pub rollback: Option<u32>,
}

/// Where the two stand: the positions the draft has, and the target's.
#[derive(Clone, Copy, Debug, PartialEq, Eq, Structural)]
pub struct Pair {
    pub committed: u32,
    pub pos: u32,
}

impl Pair {
    /// The draft has the positions the target stands at.
    pub open spec fn level(self) -> bool {
        self.committed == self.pos
    }

    /// Whether a pass may begin.
    pub fn begin(&self) -> (r: Result<(), Skew>)
        ensures
            r is Ok <==> self.level(),
    {
        if self.committed != self.pos {
            Err(Skew)
        } else {
            Ok(())
        }
    }

    /// The verdict on a pass that proposed `draft` and whose two rows' argmaxes
    /// are `ta` and `tb`.
    pub fn verify(&mut self, draft: u32, ta: u32, tb: u32) -> (r: Passed)
        requires
            old(self).level(),
            old(self).pos + 2 <= u32::MAX,
        ensures
            final(self).level(),
            final(self).pos == old(self).pos + r.rows,
            r.rows == emitted(r.verdict).len(),
            if ta == draft {
                &&& r.verdict matches Verdict::Accept(t) && t@ == seq![ta, tb]
                &&& r.rollback is None
            } else {
                &&& r.verdict == Verdict::Reject(ta)
                &&& r.rollback == Some((old(self).pos + 1) as u32)
            },
    {
        if ta == draft {
            let tokens: [u32; 2] = [ta, tb];
            assert(tokens@ =~= seq![ta, tb]);
            self.committed = self.committed + 2;
            self.pos = self.pos + 2;
            Passed { verdict: Verdict::Accept(tokens), rows: 2, rollback: None }
        } else {
            self.committed = self.committed + 1;
            self.pos = self.pos + 1;
            Passed { verdict: Verdict::Reject(ta), rows: 1, rollback: Some(self.pos) }
        }
    }
}

/// The target's plain greedy run: `n` tokens after a text.
pub open spec fn greedy(target: spec_fn(Seq<u32>) -> u32, fed: Seq<u32>, n: nat) -> Seq<u32>
    decreases n,
{
    if n == 0 {
        seq![]
    } else {
        let t = target(fed);
        seq![t] + greedy(target, fed.push(t), (n - 1) as nat)
    }
}

/// The tokens a pass emits are the plain greedy run's, whatever was proposed:
/// `fed` the tokens up to and with the pass's first, `target` the argmax after
/// a text.
pub proof fn law_tokens_are_the_greedy_runs(
    target: spec_fn(Seq<u32>) -> u32,
    fed: Seq<u32>,
    draft: u32,
    p: Passed,
    ta: u32,
    tb: u32,
)
    requires
        ta == target(fed),
        tb == target(fed.push(draft)),
        if ta == draft {
            p.verdict matches Verdict::Accept(t) && t@ == seq![ta, tb]
        } else {
            p.verdict == Verdict::Reject(ta)
        },
    ensures
        emitted(p.verdict) == greedy(target, fed, emitted(p.verdict).len()),
{
    reveal_with_fuel(greedy, 3);
    assert(emitted(p.verdict) =~= greedy(target, fed, emitted(p.verdict).len()));
}

/// The prompt features waiting for a whole group, by their rows, and the
/// positions the draft has.
#[derive(Clone, Copy, Debug, PartialEq, Eq, Structural)]
pub struct Feed {
    pub group: u32,
    pub pending: u32,
    pub committed: u32,
}

impl Feed {
    /// Less than a group waits.
    pub open spec fn wf(self) -> bool {
        self.pending < self.group
    }

    /// The positions fed so far, those that wait included.
    pub open spec fn fed(self) -> int {
        self.committed + self.pending
    }

    /// A draft that has nothing.
    pub fn new(group: u32) -> (r: Feed)
        requires
            group > 0,
        ensures
            r.wf(),
            r.group == group,
            r.pending == 0,
            r.committed == 0,
    {
        Feed { group, pending: 0, committed: 0 }
    }

    /// Queues a fed position's features: the rows that are appended now, none
    /// or a whole group.
    pub fn feed(&mut self) -> (r: u32)
        requires
            old(self).wf(),
            old(self).fed() < u32::MAX,
        ensures
            final(self).wf(),
            final(self).group == old(self).group,
            final(self).fed() == old(self).fed() + 1,
            final(self).committed == old(self).committed + r,
            r == (if old(self).pending + 1 == old(self).group {
                old(self).group
            } else {
                0
            }),
    {
        self.pending = self.pending + 1;
        if self.pending == self.group {
            self.flush()
        } else {
            0
        }
    }

    /// Appends what waits: the rows that are appended.
    pub fn flush(&mut self) -> (r: u32)
        requires
            old(self).fed() <= u32::MAX,
            old(self).group > 0,
        ensures
            final(self).wf(),
            final(self).group == old(self).group,
            final(self).pending == 0,
            final(self).fed() == old(self).fed(),
            r == old(self).pending,
    {
        let rows: u32 = self.pending;
        self.committed = self.committed + rows;
        self.pending = 0;
        rows
    }

    /// Commits the positions before `to` without their features, what waits
    /// appended first: the rows that are appended, `None` when the draft is
    /// there already.
    pub fn skip_to(&mut self, to: u32) -> (r: Option<u32>)
        requires
            old(self).wf(),
            old(self).fed() <= u32::MAX,
        ensures
            final(self).wf(),
            final(self).group == old(self).group,
            match r {
                Some(rows) => to > old(self).fed() && rows == old(self).pending
                    && final(self).committed == to && final(self).pending == 0,
                None => to <= old(self).fed() && *final(self) == *old(self),
            },
    {
        if to > self.committed + self.pending {
            let rows: u32 = self.flush();
            self.committed = to;
            Some(rows)
        } else {
            None
        }
    }
}

/// The draft's card: the one that is named out of two, the first when none is;
/// `None` of any other name.
pub fn draft_card(named: Option<&str>, first: &'static str, second: &'static str) -> (r: Option<
    &'static str,
>)
    ensures
        match named {
            None => r == Some(first),
            Some(v) => if v@ == first@ {
                r == Some(first)
            } else if v@ == second@ {
                r == Some(second)
            } else {
                r is None
            },
        },
{
    match named {
        None => Some(first),
        Some(v) => if text::same_str(v, first) {
            Some(first)
        } else if text::same_str(v, second) {
            Some(second)
        } else {
            None
        },
    }
}

/// Each token of the greedy run is the target's answer to what was fed and the
/// tokens before it, and the run is as long as was asked.
pub proof fn law_a_greedy_token_answers_what_came_before(
    target: spec_fn(Seq<u32>) -> u32,
    fed: Seq<u32>,
    n: nat,
    i: int,
)
    requires
        0 <= i < n,
    ensures
        greedy(target, fed, n).len() == n,
        greedy(target, fed, n)[i] == target(fed + greedy(target, fed, n).take(i)),
    decreases n,
{
    let t = target(fed);
    let rest = greedy(target, fed.push(t), (n - 1) as nat);
    let all = greedy(target, fed, n);
    assert(all == seq![t] + rest);
    if n > 1 {
        law_a_greedy_token_answers_what_came_before(
            target,
            fed.push(t),
            (n - 1) as nat,
            if i > 0 {
                i - 1
            } else {
                0
            },
        );
    } else {
        reveal_with_fuel(greedy, 2);
        assert(rest.len() == 0);
    }
    if i == 0 {
        assert(fed + all.take(0) =~= fed);
    } else {
        assert(fed + all.take(i) =~= fed.push(t) + rest.take(i - 1));
    }
}

} // verus!
