//! The n-gram lookup draft, streamed.
//!
//! For n = 3, 2, 1 in that order, the most recent earlier occurrence of the
//! context's last n tokens proposes the token that followed it; no match at
//! any n is no proposal. The n-grams ending at the last token enter the index
//! only when its follower is pushed, so a proposal never sees itself.
use std::collections::HashMap;
use vstd::prelude::*;

verus! {

broadcast use vstd::std_specs::hash::group_hash_axioms;

/// The largest `j` below `below` such that the tokens just before `j` in `ctx`
/// are `gram`: where the most recent follower of `gram` sits.
pub open spec fn recent(ctx: Seq<u32>, gram: Seq<u32>, below: int) -> Option<int>
    decreases below,
{
    if below <= gram.len() || below > ctx.len() {
        None
    } else if ctx.subrange(below - 1 - gram.len(), below - 1) == gram {
        Some(below - 1)
    } else {
        recent(ctx, gram, below - 1)
    }
}

/// The position whose token an n-gram match proposes: the most recent
/// follower of the context's own last `n` tokens.
pub open spec fn follower(ctx: Seq<u32>, n: int) -> Option<int> {
    if n <= ctx.len() {
        recent(ctx, ctx.subrange(ctx.len() - n, ctx.len() as int), ctx.len() as int)
    } else {
        None
    }
}

/// The token proposed to follow `ctx`.
pub open spec fn proposal(ctx: Seq<u32>) -> Option<u32> {
    match follower(ctx, 3) {
        Some(j) => Some(ctx[j]),
        None => match follower(ctx, 2) {
            Some(j) => Some(ctx[j]),
            None => match follower(ctx, 1) {
                Some(j) => Some(ctx[j]),
                None => None,
            },
        },
    }
}

/// Three tokens as one key.
spec fn key3(a: u32, b: u32, c: u32) -> u128 {
    (a * 0x1_0000_0000_0000_0000 + b * 0x1_0000_0000 + c) as u128
}

/// Two tokens as one key.
spec fn key2(a: u32, b: u32) -> u64 {
    (a * 0x1_0000_0000 + b) as u64
}

/// The streamed lookup: the context so far and, per n, where each n-gram's
/// most recent follower sits in it.
pub struct Lookup {
    idx3: HashMap<u128, usize>,
    idx2: HashMap<u64, usize>,
    idx1: HashMap<u32, usize>,
    ctx: Vec<u32>,
}

impl View for Lookup {
    type V = Seq<u32>;

    /// The context.
    closed spec fn view(&self) -> Seq<u32> {
        self.ctx@
    }
}

/// `at` holds what `found` says.
spec fn holds(at: Option<usize>, found: Option<int>) -> bool {
    match at {
        Some(j) => found == Some(j as int),
        None => found is None,
    }
}

impl Lookup {
    /// Every n-gram's index entry is its most recent follower in the context.
    pub closed spec fn wf(&self) -> bool {
        &&& forall|a: u32, b: u32, c: u32|
            holds(
                self.idx3@.get(#[trigger] key3(a, b, c)),
                recent(self.ctx@, seq![a, b, c], self.ctx@.len() as int),
            )
        &&& forall|a: u32, b: u32|
            holds(
                self.idx2@.get(#[trigger] key2(a, b)),
                recent(self.ctx@, seq![a, b], self.ctx@.len() as int),
            )
        &&& forall|a: u32|
            holds(
                #[trigger] self.idx1@.get(a),
                recent(self.ctx@, seq![a], self.ctx@.len() as int),
            )
    }

    /// An empty context.
    pub fn new() -> (r: Lookup)
        ensures
            r.wf(),
            r@ == Seq::<u32>::empty(),
    {
        Lookup { idx3: HashMap::new(), idx2: HashMap::new(), idx1: HashMap::new(), ctx: Vec::new() }
    }

    /// Append `tok` to the context. The n-grams that end just before it are
    /// indexed with `tok` as their most recent follower first.
    pub fn push(&mut self, tok: u32)
        requires
            old(self).wf(),
        ensures
            final(self).wf(),
            final(self)@ == old(self)@.push(tok),
    {
        let i: usize = self.ctx.len();
        let ghost ctx = self.ctx@;
        let ghost next = ctx.push(tok);
        let ghost old1 = self.idx1@;
        if i >= 3 {
            let k: u128 = pack3(self.ctx[i - 3], self.ctx[i - 2], self.ctx[i - 1]);
            self.idx3.insert(k, i);
        }
        if i >= 2 {
            let k: u64 = pack2(self.ctx[i - 2], self.ctx[i - 1]);
            self.idx2.insert(k, i);
        }
        if i >= 1 {
            let k: u32 = self.ctx[i - 1];
            self.idx1.insert(k, i);
        }
        self.ctx.push(tok);
        proof {
            assert forall|a: u32, b: u32, c: u32|
                holds(
                    self.idx3@.get(#[trigger] key3(a, b, c)),
                    recent(next, seq![a, b, c], next.len() as int),
                ) by {
                lemma_recent_push(ctx, tok, seq![a, b, c]);
                if i >= 3 {
                    let g = ctx.subrange(i - 3, i as int);
                    lemma_key3(a, b, c, ctx[i - 3], ctx[i - 2], ctx[i - 1]);
                    if g == seq![a, b, c] {
                        assert(g[0] == a && g[1] == b && g[2] == c);
                    } else {
                        assert(!(g[0] == a && g[1] == b && g[2] == c)) by {
                            if g[0] == a && g[1] == b && g[2] == c {
                                assert(g =~= seq![a, b, c]);
                            }
                        }
                    }
                }
            }
            assert forall|a: u32, b: u32|
                holds(
                    self.idx2@.get(#[trigger] key2(a, b)),
                    recent(next, seq![a, b], next.len() as int),
                ) by {
                lemma_recent_push(ctx, tok, seq![a, b]);
                if i >= 2 {
                    let g = ctx.subrange(i - 2, i as int);
                    if g == seq![a, b] {
                        assert(g[0] == a && g[1] == b);
                    } else {
                        assert(!(g[0] == a && g[1] == b)) by {
                            if g[0] == a && g[1] == b {
                                assert(g =~= seq![a, b]);
                            }
                        }
                    }
                }
            }
            assert forall|a: u32|
                holds(#[trigger] self.idx1@.get(a), recent(next, seq![a], next.len() as int)) by {
                lemma_recent_push(ctx, tok, seq![a]);
                assert(holds(old1.get(a), recent(ctx, seq![a], ctx.len() as int)));
                if i >= 1 {
                    let g = ctx.subrange(i - 1, i as int);
                    if g == seq![a] {
                        assert(g[0] == a);
                    } else {
                        assert(g[0] != a) by {
                            if g[0] == a {
                                assert(g =~= seq![a]);
                            }
                        }
                    }
                }
            }
        }
    }

    /// The token proposed to follow the context, from the longest n in 3, 2, 1
    /// whose last-n n-gram occurred earlier; `None` when none did.
    #[must_use]
    pub fn propose(&self) -> (r: Option<u32>)
        requires
            self.wf(),
        ensures
            r == proposal(self@),
    {
        let i: usize = self.ctx.len();
        let ghost ctx = self.ctx@;
        if i >= 3 {
            let (a, b, c): (u32, u32, u32) = (self.ctx[i - 3], self.ctx[i - 2], self.ctx[i - 1]);
            proof {
                assert(ctx.subrange(i - 3, i as int) =~= seq![a, b, c]);
                assert(holds(
                    self.idx3@.get(key3(a, b, c)),
                    recent(ctx, seq![a, b, c], ctx.len() as int),
                ));
                lemma_recent_is_latest(ctx, seq![a, b, c], i as int);
            }
            if let Some(j) = self.idx3.get(&pack3(a, b, c)) {
                return Some(self.ctx[*j]);
            }
        }
        if i >= 2 {
            let (a, b): (u32, u32) = (self.ctx[i - 2], self.ctx[i - 1]);
            proof {
                assert(ctx.subrange(i - 2, i as int) =~= seq![a, b]);
                assert(holds(
                    self.idx2@.get(key2(a, b)),
                    recent(ctx, seq![a, b], ctx.len() as int),
                ));
                lemma_recent_is_latest(ctx, seq![a, b], i as int);
            }
            if let Some(j) = self.idx2.get(&pack2(a, b)) {
                return Some(self.ctx[*j]);
            }
        }
        if i >= 1 {
            let a: u32 = self.ctx[i - 1];
            proof {
                assert(ctx.subrange(i - 1, i as int) =~= seq![a]);
                assert(holds(self.idx1@.get(a), recent(ctx, seq![a], ctx.len() as int)));
                lemma_recent_is_latest(ctx, seq![a], i as int);
            }
            if let Some(j) = self.idx1.get(&a) {
                return Some(self.ctx[*j]);
            }
        }
        None
    }
}

/// Three tokens as one key.
fn pack3(a: u32, b: u32, c: u32) -> (r: u128)
    ensures
        r == key3(a, b, c),
{
    a as u128 * 0x1_0000_0000_0000_0000 + b as u128 * 0x1_0000_0000 + c as u128
}

/// Two tokens as one key.
fn pack2(a: u32, b: u32) -> (r: u64)
    ensures
        r == key2(a, b),
{
    a as u64 * 0x1_0000_0000 + b as u64
}

proof fn lemma_key3(a: u32, b: u32, c: u32, x: u32, y: u32, z: u32)
    ensures
        key3(a, b, c) == key3(x, y, z) ==> a == x && b == y && c == z,
{
}

proof fn lemma_recent_prefix(ctx: Seq<u32>, tok: u32, gram: Seq<u32>, below: int)
    requires
        below <= ctx.len(),
    ensures
        recent(ctx.push(tok), gram, below) == recent(ctx, gram, below),
    decreases below,
{
    if below > gram.len() {
        assert(ctx.push(tok).subrange(below - 1 - gram.len(), below - 1) =~= ctx.subrange(
            below - 1 - gram.len(),
            below - 1,
        ));
        lemma_recent_prefix(ctx, tok, gram, below - 1);
    }
}

proof fn lemma_recent_push(ctx: Seq<u32>, tok: u32, gram: Seq<u32>)
    ensures
        recent(ctx.push(tok), gram, ctx.len() as int + 1) == if gram.len() <= ctx.len() && ctx.subrange(
            ctx.len() - gram.len(),
            ctx.len() as int,
        ) == gram {
            Some(ctx.len() as int)
        } else {
            recent(ctx, gram, ctx.len() as int)
        },
{
    lemma_recent_prefix(ctx, tok, gram, ctx.len() as int);
    if gram.len() <= ctx.len() {
        assert(ctx.push(tok).subrange(ctx.len() - gram.len(), ctx.len() as int) =~= ctx.subrange(
            ctx.len() - gram.len(),
            ctx.len() as int,
        ));
    }
}

proof fn lemma_recent_is_latest(ctx: Seq<u32>, gram: Seq<u32>, below: int)
    requires
        below <= ctx.len(),
    ensures
        match recent(ctx, gram, below) {
            Some(j) => {
                &&& gram.len() <= j < below
                &&& ctx.subrange(j - gram.len(), j) == gram
                &&& forall|k: int|
                    j < k < below ==> #[trigger] ctx.subrange(k - gram.len(), k) != gram
            },
            None => forall|k: int|
                gram.len() <= k < below ==> #[trigger] ctx.subrange(k - gram.len(), k) != gram,
        },
    decreases below,
{
    if below > gram.len() && ctx.subrange(below - 1 - gram.len(), below - 1) != gram {
        lemma_recent_is_latest(ctx, gram, below - 1);
    }
}

// ------------------------------------------------------------ laws

/// A proposal is the token that followed the most recent earlier occurrence
/// of the context's last n tokens, n the largest of 3, 2, 1 that has one: the
/// occurrence ends before the context's end, so a proposal never sees itself,
/// and no later occurrence ends before it either.
pub proof fn law_proposal_follows_the_latest_occurrence(ctx: Seq<u32>, n: int)
    requires
        1 <= n <= 3,
        n <= ctx.len(),
    ensures
        match follower(ctx, n) {
            Some(j) => {
                &&& n <= j < ctx.len()
                &&& ctx.subrange(j - n, j) == ctx.subrange(ctx.len() - n, ctx.len() as int)
                &&& forall|k: int|
                    j < k < ctx.len() ==> #[trigger] ctx.subrange(k - n, k) != ctx.subrange(
                        ctx.len() - n,
                        ctx.len() as int,
                    )
                &&& (forall|m: int| n < m <= 3 ==> #[trigger] follower(ctx, m) is None)
                    ==> proposal(ctx) == Some(ctx[j])
            },
            None => forall|k: int|
                n <= k < ctx.len() ==> #[trigger] ctx.subrange(k - n, k) != ctx.subrange(
                    ctx.len() - n,
                    ctx.len() as int,
                ),
        },
{
    lemma_recent_is_latest(
        ctx,
        ctx.subrange(ctx.len() - n, ctx.len() as int),
        ctx.len() as int,
    );
    if (forall|m: int| n < m <= 3 ==> #[trigger] follower(ctx, m) is None) {
        assert(n < 3 ==> follower(ctx, 3) is None);
        assert(n < 2 ==> follower(ctx, 2) is None);
    }
}

/// Without an earlier occurrence of the context's last token there is no
/// proposal: a longer match would be one of the last token too.
pub proof fn law_no_proposal_for_a_new_token(ctx: Seq<u32>)
    requires
        follower(ctx, 1) is None,
    ensures
        proposal(ctx) is None,
{
    assert forall|n: int| 2 <= n <= 3 && n <= ctx.len() implies #[trigger] follower(ctx, n)
        is None by {
        if follower(ctx, n) is Some {
            law_proposal_follows_the_latest_occurrence(ctx, n);
            law_proposal_follows_the_latest_occurrence(ctx, 1);
            let j = follower(ctx, n)->0;
            let tail = ctx.subrange(ctx.len() - n, ctx.len() as int);
            assert(ctx.subrange(j - n, j)[n - 1] == tail[n - 1]);
            assert(ctx.subrange(j - 1, j) =~= ctx.subrange(ctx.len() - 1, ctx.len() as int));
        }
    }
}

} // verus!
