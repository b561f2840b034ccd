//! The nodes of a captured graph by type, as the gates count and print them,
//! and a capture's nodes in stream order with the edges between them.
use crate::count::count_where;
use crate::count::lemma_count_bound;
use crate::text;
use crate::text::decimal;
use std::collections::HashMap;
use vstd::prelude::*;

verus! {

broadcast use vstd::std_specs::hash::group_hash_axioms;

/// A node's type: the driver's `CU_GRAPH_NODE_TYPE_*` that a gate prints by
/// name, and any other by its number.
#[derive(Clone, Copy, Debug, PartialEq, Eq, Structural)]
pub enum NodeKind {
    Kernel,
    Memcpy,
    Memset,
    Host,
    Empty,
    WaitEvent,
    BatchMemOp,
    Type(u32),
}

impl NodeKind {
    /// The name a gate prints.
    pub open spec fn spelling(self) -> Seq<char> {
        match self {
            NodeKind::Kernel => "kernel"@,
            NodeKind::Memcpy => "memcpy"@,
            NodeKind::Memset => "memset"@,
            NodeKind::Host => "host"@,
            NodeKind::Empty => "empty"@,
            NodeKind::WaitEvent => "wait_event"@,
            NodeKind::BatchMemOp => "batch_mem_op"@,
            NodeKind::Type(n) => "type"@ + decimal(n as nat),
        }
    }
}

/// The name a gate prints for node type `kind`; `type<n>` for a type with no
/// name here.
pub fn kind_name(kind: NodeKind) -> (r: String)
    ensures
        r@ == kind.spelling(),
{
    let mut out: Vec<char> = Vec::new();
    match kind {
        NodeKind::Kernel => text::push_str(&mut out, "kernel"),
        NodeKind::Memcpy => text::push_str(&mut out, "memcpy"),
        NodeKind::Memset => text::push_str(&mut out, "memset"),
        NodeKind::Host => text::push_str(&mut out, "host"),
        NodeKind::Empty => text::push_str(&mut out, "empty"),
        NodeKind::WaitEvent => text::push_str(&mut out, "wait_event"),
        NodeKind::BatchMemOp => text::push_str(&mut out, "batch_mem_op"),
        NodeKind::Type(n) => {
            text::push_str(&mut out, "type");
            text::push_decimal(&mut out, n as u64);
        },
    }
    assert(out@ =~= kind.spelling());
    text::string_of(out.as_slice())
}

/// The first entry of `kinds` from `at` on that is `kind`.
pub open spec fn kind_index(kinds: Seq<NodeKind>, kind: NodeKind, at: int) -> Option<int>
    decreases kinds.len() - at,
{
    if at < 0 || at >= kinds.len() {
        None
    } else if kinds[at] == kind {
        Some(at)
    } else {
        kind_index(kinds, kind, at + 1)
    }
}

/// Whether a node is counted under an entry, `None` for the rest.
pub open spec fn counted(
    nodes: Seq<NodeKind>,
    kinds: Seq<NodeKind>,
    under: Option<int>,
) -> spec_fn(int) -> bool {
    |i: int| kind_index(kinds, nodes[i], 0) == under
}

/// The first entry of `kinds` that is `kind`.
fn find_kind(kinds: &[NodeKind], kind: NodeKind) -> (r: Option<usize>)
    ensures
        match r {
            Some(i) => i < kinds@.len() && kind_index(kinds@, kind, 0) == Some(i as int),
            None => kind_index(kinds@, kind, 0) is None,
        },
{
    let mut i: usize = 0;
    while i < kinds.len()
        invariant
            i <= kinds@.len(),
            kind_index(kinds@, kind, 0) == kind_index(kinds@, kind, i as int),
        decreases kinds@.len() - i,
    {
        if kinds[i] == kind {
            return Some(i);
        }
        i += 1;
    }
    None
}

/// `nodes` counted by type: one count per entry of `kinds`, in its order, and
/// the nodes of every other type together.
pub fn count_kinds(nodes: &[NodeKind], kinds: &[NodeKind]) -> (r: (Vec<usize>, usize))
    ensures
        r.0@.len() == kinds@.len(),
        forall|k: int|
            0 <= k < kinds@.len() ==> #[trigger] r.0@[k] == count_where(
                nodes@.len() as int,
                counted(nodes@, kinds@, Some(k)),
            ),
        r.1 == count_where(nodes@.len() as int, counted(nodes@, kinds@, None)),
{
    let mut counts: Vec<usize> = Vec::new();
    let mut k: usize = 0;
    while k < kinds.len()
        invariant
            k <= kinds@.len(),
            counts@.len() == k,
            forall|j: int| 0 <= j < k ==> #[trigger] counts@[j] == 0,
        decreases kinds@.len() - k,
    {
        counts.push(0);
        k += 1;
    }
    let mut other: usize = 0;
    let mut i: usize = 0;
    while i < nodes.len()
        invariant
            i <= nodes@.len(),
            counts@.len() == kinds@.len(),
            forall|k: int|
                0 <= k < kinds@.len() ==> #[trigger] counts@[k] == count_where(
                    i as int,
                    counted(nodes@, kinds@, Some(k)),
                ),
            other == count_where(i as int, counted(nodes@, kinds@, None)),
        decreases nodes@.len() - i,
    {
        match find_kind(kinds, nodes[i]) {
            Some(k) => {
                proof {
                    lemma_count_bound(i as int, counted(nodes@, kinds@, Some(k as int)));
                }
                let c: usize = counts[k] + 1;
                counts.set(k, c);
            },
            None => {
                proof {
                    lemma_count_bound(i as int, counted(nodes@, kinds@, None));
                }
                other += 1;
            },
        }
        i += 1;
    }
    (counts, other)
}

/// The counts of the first `k` entries together.
pub open spec fn total_counted(nodes: Seq<NodeKind>, kinds: Seq<NodeKind>, n: int, k: int) -> nat
    decreases k,
{
    if k <= 0 {
        0
    } else {
        total_counted(nodes, kinds, n, k - 1) + count_where(
            n,
            counted(nodes, kinds, Some(k - 1)),
        )
    }
}

/// Every node is counted once: the counts and the rest add up to the nodes.
pub proof fn law_every_node_is_counted_once(nodes: Seq<NodeKind>, kinds: Seq<NodeKind>, n: int)
    requires
        0 <= n <= nodes.len(),
    ensures
        total_counted(nodes, kinds, n, kinds.len() as int) + count_where(
            n,
            counted(nodes, kinds, None),
        ) == n,
    decreases n,
{
    if n > 0 {
        law_every_node_is_counted_once(nodes, kinds, n - 1);
        lemma_kind_index_range(kinds, nodes[n - 1], 0);
        lemma_total_step(nodes, kinds, n, kinds.len() as int);
    } else {
        lemma_total_none(nodes, kinds, kinds.len() as int);
    }
}

proof fn lemma_kind_index_range(kinds: Seq<NodeKind>, kind: NodeKind, at: int)
    requires
        0 <= at,
    ensures
        kind_index(kinds, kind, at) matches Some(i) ==> at <= i < kinds.len(),
    decreases kinds.len() - at,
{
    if at < kinds.len() && kinds[at] != kind {
        lemma_kind_index_range(kinds, kind, at + 1);
    }
}

proof fn lemma_total_none(nodes: Seq<NodeKind>, kinds: Seq<NodeKind>, k: int)
    ensures
        total_counted(nodes, kinds, 0, k) == 0,
    decreases k,
{
    if k > 0 {
        lemma_total_none(nodes, kinds, k - 1);
    }
}

proof fn lemma_total_step(nodes: Seq<NodeKind>, kinds: Seq<NodeKind>, n: int, k: int)
    requires
        0 < n,
        0 <= k,
        kind_index(kinds, nodes[n - 1], 0) matches Some(i) ==> 0 <= i,
    ensures
        total_counted(nodes, kinds, n, k) == total_counted(nodes, kinds, n - 1, k) + (
        if kind_index(kinds, nodes[n - 1], 0) is Some && kind_index(kinds, nodes[n - 1], 0)->0
            < k {
            1nat
        } else {
            0
        }),
    decreases k,
{
    if k > 0 {
        lemma_total_step(nodes, kinds, n, k - 1);
    }
}

// ------------------------------------------------------------ templates

/// One node of a captured template, as a gate reads it.
#[derive(Debug, Clone)]
pub enum StepNode {
    /// A kernel launch and its entry name.
    Kernel(String),
    /// A stream memory-operation batch and its operation count.
    Memop(u32),
    /// Any other node, by [`kind_name`].
    Other(String),
}

/// A kernel node whose function has no name.
#[derive(Debug, Clone, Copy, PartialEq, Eq, Structural)]
pub struct NoKernelName;

/// A node's kind, with its kernel's entry name or its batch's operation count.
pub fn describe(kind: NodeKind, name: Option<String>, operations: u32) -> (r: Result<
    StepNode,
    NoKernelName,
>)
    ensures
        match r {
            Ok(StepNode::Kernel(k)) => kind == NodeKind::Kernel && name == Some(k),
            Ok(StepNode::Memop(n)) => kind == NodeKind::BatchMemOp && n == operations,
            Ok(StepNode::Other(s)) => kind != NodeKind::Kernel && kind != NodeKind::BatchMemOp
                && s@ == kind.spelling(),
            Err(_) => kind == NodeKind::Kernel && name is None,
        },
{
    if kind == NodeKind::Kernel {
        match name {
            Some(k) => Ok(StepNode::Kernel(k)),
            None => Err(NoKernelName),
        }
    } else if kind == NodeKind::BatchMemOp {
        Ok(StepNode::Memop(operations))
    } else {
        Ok(StepNode::Other(kind_name(kind)))
    }
}

/// A capture's nodes in the order they were enqueued, and its edges as indices
/// into that order.
#[derive(Debug)]
pub struct Captured {
    /// The nodes, in enqueue order.
    pub nodes: Vec<StepNode>,
    /// Per node, the nodes it depends on, ascending.
    pub deps: Vec<Vec<usize>>,
    /// Per node, the nodes that depend on it, ascending.
    pub dependents: Vec<Vec<usize>>,
}

/// Why a template's order is not an enqueue order.
#[derive(Debug, Clone, Copy, PartialEq, Eq, Structural)]
pub enum EdgeError {
    /// This node has a dependent the template does not list.
    Unlisted(usize),
    /// The edge from the first node to the second runs backward.
    Backward(usize, usize),
}

/// Where the first `n` handles list a handle last.
pub open spec fn listed(handles: Seq<u64>, h: u64, n: int) -> Option<int>
    decreases n,
{
    if n <= 0 {
        None
    } else if handles[n - 1] == h {
        Some(n - 1)
    } else {
        listed(handles, h, n - 1)
    }
}

/// Where a template lists a handle.
pub open spec fn place(handles: Seq<u64>, h: u64) -> Option<int> {
    listed(handles, h, handles.len() as int)
}

/// What is wrong with the edge from node `i` to handle `h`.
pub open spec fn edge_fault(handles: Seq<u64>, i: int, h: u64) -> Option<EdgeError> {
    match place(handles, h) {
        None => Some(EdgeError::Unlisted(i as usize)),
        Some(j) => if j <= i {
            Some(EdgeError::Backward(i as usize, j as usize))
        } else {
            None
        },
    }
}

/// What is wrong with the first `k` edges of node `i`.
pub open spec fn node_fault(handles: Seq<u64>, i: int, next: Seq<u64>, k: int) -> Option<EdgeError>
    decreases k,
{
    if k <= 0 {
        None
    } else {
        match node_fault(handles, i, next, k - 1) {
            Some(e) => Some(e),
            None => edge_fault(handles, i, next[k - 1]),
        }
    }
}

/// What is wrong with the edges of the first `n` nodes.
pub open spec fn fault(handles: Seq<u64>, next: Seq<Vec<u64>>, n: int) -> Option<EdgeError>
    decreases n,
{
    if n <= 0 {
        None
    } else {
        match fault(handles, next, n - 1) {
            Some(e) => Some(e),
            None => node_fault(handles, n - 1, next[n - 1]@, next[n - 1]@.len() as int),
        }
    }
}

/// The nodes that the handles stand for.
pub open spec fn targets(handles: Seq<u64>, next: Seq<u64>) -> Seq<usize> {
    next.map_values(|h: u64| place(handles, h)->0 as usize)
}

/// How often the first `k` edges of a node run to node `j`.
pub open spec fn runs_to(handles: Seq<u64>, next: Seq<u64>, j: int, k: int) -> nat
    decreases k,
{
    if k <= 0 {
        0
    } else {
        runs_to(handles, next, j, k - 1) + (if place(handles, next[k - 1]) == Some(j) {
            1nat
        } else {
            0
        })
    }
}

/// A value repeated.
pub open spec fn repeat(x: usize, n: nat) -> Seq<usize> {
    Seq::new(n, |i: int| x)
}

/// The nodes among the first `n` that node `j` depends on, ascending, one for
/// each edge.
pub open spec fn sources(handles: Seq<u64>, next: Seq<Vec<u64>>, j: int, n: int) -> Seq<usize>
    decreases n,
{
    if n <= 0 {
        seq![]
    } else {
        sources(handles, next, j, n - 1) + repeat(
            (n - 1) as usize,
            runs_to(handles, next[n - 1]@, j, next[n - 1]@.len() as int),
        )
    }
}

/// Ascending.
pub open spec fn ascending(v: Seq<usize>) -> bool {
    forall|a: int, b: int| 0 <= a <= b < v.len() ==> v[a] <= v[b]
}

/// Adds a value to an ascending list.
fn insert_ascending(v: &mut Vec<usize>, x: usize)
    requires
        ascending(old(v)@),
    ensures
        ascending(final(v)@),
        final(v)@.to_multiset() == old(v)@.to_multiset().insert(x),
{
    let mut at: usize = v.len();
    while at > 0 && v[at - 1] > x
        invariant
            at <= v@.len(),
            v@ == old(v)@,
            ascending(v@),
            forall|k: int| at <= k < v@.len() ==> v@[k] > x,
        decreases at,
    {
        at -= 1;
    }
    proof {
        vstd::seq_lib::to_multiset_insert(v@, at as int, x);
    }
    let ghost held = v@;
    v.insert(at, x);
    assert(v@ == held.insert(at as int, x));
    proof {
        assert forall|a: int, b: int| 0 <= a <= b < v@.len() implies v@[a] <= v@[b] by {
            if a < at && b > at {
                assert(held[a] <= held[b - 1]);
            } else if a < at && b == at {
                assert(held[a] <= held[at - 1]);
            }
        }
    }
}

/// An empty list for each of `n` nodes.
fn empty_lists(n: usize) -> (r: Vec<Vec<usize>>)
    ensures
        r@.len() == n,
        forall|i: int| 0 <= i < n ==> (#[trigger] r@[i])@ == Seq::<usize>::empty(),
{
    let mut r: Vec<Vec<usize>> = Vec::new();
    let mut i: usize = 0;
    while i < n
        invariant
            i <= n,
            r@.len() == i,
            forall|k: int| 0 <= k < i ==> (#[trigger] r@[k])@ == Seq::<usize>::empty(),
        decreases n - i,
    {
        r.push(Vec::new());
        i += 1;
    }
    r
}

/// A map places a handle where the first `n` list it last.
spec fn places(m: Map<u64, usize>, handles: Seq<u64>, n: int, h: u64) -> bool {
    match listed(handles, h, n) {
        Some(j) => 0 <= j < n && m.contains_key(h) && m[h] == j,
        None => !m.contains_key(h),
    }
}

/// Where each handle stands, the last place of one listed twice.
fn index_handles(handles: &[u64]) -> (r: HashMap<u64, usize>)
    ensures
        forall|h: u64| #[trigger] places(r@, handles@, handles@.len() as int, h),
{
    let mut r: HashMap<u64, usize> = HashMap::new();
    let mut i: usize = 0;
    while i < handles.len()
        invariant
            i <= handles@.len(),
            forall|h: u64| #[trigger] places(r@, handles@, i as int, h),
        decreases handles@.len() - i,
    {
        let ghost held = r@;
        r.insert(handles[i], i);
        proof {
            assert forall|h: u64| #[trigger] places(r@, handles@, i + 1, h) by {
                assert(places(held, handles@, i as int, h));
            }
        }
        i += 1;
    }
    r
}

impl Captured {
    /// The capture is this template's: its nodes in listing order, and every
    /// edge in both directions.
    pub open spec fn is_of(
        &self,
        nodes: Seq<StepNode>,
        handles: Seq<u64>,
        next: Seq<Vec<u64>>,
    ) -> bool {
        let n = handles.len() as int;
        &&& self.nodes@ == nodes
        &&& self.deps@.len() == n
        &&& self.dependents@.len() == n
        &&& forall|i: int|
            0 <= i < n ==> ascending((#[trigger] self.dependents@[i])@)
                && self.dependents@[i]@.to_multiset() == targets(
                handles,
                next[i]@,
            ).to_multiset()
        &&& forall|j: int|
            0 <= j < n ==> (#[trigger] self.deps@[j])@ == sources(handles, next, j, n)
    }

    /// A captured template read back: `handles` its nodes as the driver lists
    /// them, `nodes` what they are, `next` the handles of each node's
    /// dependents.
    ///
    /// The order is the driver's, which lists a captured template's nodes in
    /// the order they were created, that is the host's enqueue order across
    /// every stream of the capture. It is taken only when it is also a
    /// topological order: an edge from a later node to an earlier one is
    /// refused rather than read as stream order.
    pub fn of(nodes: Vec<StepNode>, handles: &[u64], next: &[Vec<u64>]) -> (r: Result<
        Captured,
        EdgeError,
    >)
        requires
            nodes@.len() == handles@.len(),
            next@.len() == handles@.len(),
        ensures
            match r {
                Ok(c) => fault(handles@, next@, handles@.len() as int) is None && c.is_of(
                    nodes@,
                    handles@,
                    next@,
                ),
                Err(e) => fault(handles@, next@, handles@.len() as int) == Some(e),
            },
    {
        let total: usize = handles.len();
        let index: HashMap<u64, usize> = index_handles(handles);
        let mut deps: Vec<Vec<usize>> = empty_lists(total);
        let mut dependents: Vec<Vec<usize>> = Vec::new();
        let mut i: usize = 0;
        while i < total
            invariant
                i <= total == handles@.len(),
                next@.len() == total,
                deps@.len() == total,
                dependents@.len() == i,
                fault(handles@, next@, i as int) is None,
                forall|h: u64| #[trigger] places(index@, handles@, handles@.len() as int, h),
                forall|a: int|
                    0 <= a < i ==> ascending((#[trigger] dependents@[a])@)
                        && dependents@[a]@.to_multiset() == targets(
                        handles@,
                        next@[a]@,
                    ).to_multiset(),
                forall|j: int|
                    0 <= j < total ==> (#[trigger] deps@[j])@ == sources(
                        handles@,
                        next@,
                        j,
                        i as int,
                    ),
            decreases total - i,
        {
            let mut outs: Vec<usize> = Vec::new();
            let mut k: usize = 0;
            let ghost before = deps@;
            proof {
                assert(targets(handles@, next@[i as int]@).take(0) =~= Seq::empty());
                Seq::<usize>::empty().to_multiset_ensures();
                assert forall|j: int| 0 <= j < total implies (#[trigger] deps@[j])@ == before[j]@
                    + repeat(i, runs_to(handles@, next@[i as int]@, j, 0)) by {
                    assert(before[j]@ + repeat(i, 0) =~= before[j]@);
                }
                assert(outs@ =~= Seq::<usize>::empty());
            }
            while k < next[i].len()
                invariant
                    i < total == handles@.len(),
                    next@.len() == total,
                    k <= next@[i as int]@.len(),
                    deps@.len() == total,
                    before.len() == total,
                    fault(handles@, next@, i as int) is None,
                    node_fault(handles@, i as int, next@[i as int]@, k as int) is None,
                    forall|h: u64| #[trigger] places(index@, handles@, handles@.len() as int, h),
                    ascending(outs@),
                    outs@.to_multiset() == targets(handles@, next@[i as int]@).take(
                        k as int,
                    ).to_multiset(),
                    forall|j: int|
                        0 <= j < total ==> (#[trigger] deps@[j])@ == before[j]@ + repeat(
                            i,
                            runs_to(handles@, next@[i as int]@, j, k as int),
                        ),
                decreases next@[i as int]@.len() - k,
            {
                let h: u64 = next[i][k];
                assert(places(index@, handles@, handles@.len() as int, h));
                match index.get(&h) {
                    None => {
                        proof {
                            lemma_fault_found(handles@, next@, i as int, k as int);
                        }
                        return Err(EdgeError::Unlisted(i));
                    },
                    Some(at) => {
                        let j: usize = *at;
                        if j <= i {
                            proof {
                                lemma_fault_found(handles@, next@, i as int, k as int);
                            }
                            return Err(EdgeError::Backward(i, j));
                        }
                        let ghost t = targets(handles@, next@[i as int]@);
                        proof {
                            assert(t.take(k + 1) =~= t.take(k as int).push(t[k as int]));
                            vstd::seq_lib::to_multiset_build(t.take(k as int), t[k as int]);
                            assert(t[k as int] == j);
                        }
                        insert_ascending(&mut outs, j);
                        let ghost held = deps@;
                        let mut list: Vec<usize> = Vec::new();
                        std::mem::swap(&mut list, &mut deps[j]);
                        list.push(i);
                        deps.set(j, list);
                        proof {
                            assert forall|x: int| 0 <= x < total implies (#[trigger] deps@[x])@
                                == before[x]@ + repeat(
                                i,
                                runs_to(handles@, next@[i as int]@, x, k + 1),
                            ) by {
                                assert(held[x]@ == before[x]@ + repeat(
                                    i,
                                    runs_to(handles@, next@[i as int]@, x, k as int),
                                ));
                                if x == j {
                                    assert(deps@[x]@ =~= before[x]@ + repeat(
                                        i,
                                        runs_to(handles@, next@[i as int]@, x, k + 1),
                                    ));
                                }
                            }
                        }
                    },
                }
                k += 1;
            }
            proof {
                let t = targets(handles@, next@[i as int]@);
                assert(t.take(t.len() as int) =~= t);
            }
            dependents.push(outs);
            i += 1;
        }
        Ok(Captured { nodes, deps, dependents })
    }

    /// The kernel name of node `i`, or `None` for another kind.
    #[must_use]
    pub fn kernel(&self, i: usize) -> (r: Option<&str>)
        ensures
            match r {
                Some(k) => i < self.nodes@.len() && (self.nodes@[i as int] matches StepNode::Kernel(
                    s,
                ) && k@ == s@),
                None => i >= self.nodes@.len() || !(self.nodes@[i as int] is Kernel),
            },
    {
        if i < self.nodes.len() {
            match &self.nodes[i] {
                StepNode::Kernel(k) => Some(k.as_str()),
                _ => None,
            }
        } else {
            None
        }
    }
}

/// A fault at edge `k` of node `i`, none before it, is the template's.
proof fn lemma_fault_found(handles: Seq<u64>, next: Seq<Vec<u64>>, i: int, k: int)
    requires
        0 <= i < next.len(),
        0 <= k < next[i]@.len(),
        fault(handles, next, i) is None,
        node_fault(handles, i, next[i]@, k) is None,
        edge_fault(handles, i, next[i]@[k]) is Some,
        handles.len() == next.len(),
    ensures
        fault(handles, next, handles.len() as int) == edge_fault(handles, i, next[i]@[k]),
{
    lemma_node_fault_stays(handles, i, next[i]@, k + 1);
    lemma_fault_stays(handles, next, i + 1);
}

proof fn lemma_node_fault_stays(handles: Seq<u64>, i: int, next: Seq<u64>, k: int)
    requires
        0 <= k <= next.len(),
        node_fault(handles, i, next, k) is Some,
    ensures
        node_fault(handles, i, next, next.len() as int) == node_fault(handles, i, next, k),
    decreases next.len() - k,
{
    if k < next.len() {
        lemma_node_fault_stays(handles, i, next, k + 1);
    }
}

proof fn lemma_fault_stays(handles: Seq<u64>, next: Seq<Vec<u64>>, n: int)
    requires
        0 <= n <= next.len(),
        fault(handles, next, n) is Some,
    ensures
        fault(handles, next, next.len() as int) == fault(handles, next, n),
    decreases next.len() - n,
{
    if n < next.len() {
        lemma_fault_stays(handles, next, n + 1);
    }
}

/// The two directions mirror each other: a capture lists node `i` among the
/// dependencies of node `j` as often as node `j` among the dependents of
/// node `i`.
pub proof fn law_edges_mirror(
    c: Captured,
    nodes: Seq<StepNode>,
    handles: Seq<u64>,
    next: Seq<Vec<u64>>,
    i: int,
    j: int,
)
    requires
        c.is_of(nodes, handles, next),
        fault(handles, next, handles.len() as int) is None,
        next.len() == handles.len(),
        handles.len() <= usize::MAX,
        0 <= i < handles.len(),
        0 <= j < handles.len(),
    ensures
        c.deps@[j]@.to_multiset().count(i as usize) == c.dependents@[i]@.to_multiset().count(
            j as usize,
        ),
{
    let n = handles.len() as int;
    assert(c.deps@[j]@ == sources(handles, next, j, n));
    assert(c.dependents@[i]@.to_multiset() == targets(handles, next[i]@).to_multiset());
    lemma_sources_count(handles, next, j, n, i);
    lemma_fault_prefix(handles, next, n, i);
    lemma_targets_count(handles, i, next[i]@, j, next[i]@.len() as int);
    let t = targets(handles, next[i]@);
    assert(t.take(t.len() as int) =~= t);
}

proof fn lemma_fault_prefix(handles: Seq<u64>, next: Seq<Vec<u64>>, n: int, i: int)
    requires
        fault(handles, next, n) is None,
        0 <= i < n <= next.len(),
    ensures
        node_fault(handles, i, next[i]@, next[i]@.len() as int) is None,
    decreases n,
{
    if i < n - 1 {
        lemma_fault_prefix(handles, next, n - 1, i);
    }
}

proof fn lemma_repeat_count(x: usize, n: nat, y: usize)
    ensures
        repeat(x, n).to_multiset().count(y) == (if x == y {
            n
        } else {
            0
        }),
    decreases n,
{
    repeat(x, n).to_multiset_ensures();
    if n > 0 {
        lemma_repeat_count(x, (n - 1) as nat, y);
        assert(repeat(x, n) =~= repeat(x, (n - 1) as nat).push(x));
        vstd::seq_lib::to_multiset_build(repeat(x, (n - 1) as nat), x);
    } else {
        assert(repeat(x, 0) =~= Seq::empty());
    }
}

proof fn lemma_sources_count(handles: Seq<u64>, next: Seq<Vec<u64>>, j: int, n: int, i: int)
    requires
        0 <= i,
        0 <= n <= usize::MAX,
        i <= usize::MAX,
    ensures
        sources(handles, next, j, n).to_multiset().count(i as usize) == (if i < n {
            runs_to(handles, next[i]@, j, next[i]@.len() as int)
        } else {
            0
        }),
    decreases n,
{
    if n > 0 {
        lemma_sources_count(handles, next, j, n - 1, i);
        let a = sources(handles, next, j, n - 1);
        let times = runs_to(handles, next[n - 1]@, j, next[n - 1]@.len() as int);
        let b = repeat((n - 1) as usize, times);
        lemma_repeat_count((n - 1) as usize, times, i as usize);
        vstd::seq_lib::lemma_multiset_commutative(a, b);
    } else {
        sources(handles, next, j, n).to_multiset_ensures();
    }
}

proof fn lemma_targets_count(handles: Seq<u64>, i: int, next: Seq<u64>, j: int, k: int)
    requires
        0 <= k <= next.len(),
        0 <= j < handles.len() <= usize::MAX,
        node_fault(handles, i, next, k) is None,
        0 <= i,
    ensures
        targets(handles, next).take(k).to_multiset().count(j as usize) == runs_to(
            handles,
            next,
            j,
            k,
        ),
    decreases k,
{
    let t = targets(handles, next);
    if k > 0 {
        lemma_targets_count(handles, i, next, j, k - 1);
        assert(t.take(k) =~= t.take(k - 1).push(t[k - 1]));
        vstd::seq_lib::to_multiset_build(t.take(k - 1), t[k - 1]);
        assert(edge_fault(handles, i, next[k - 1]) is None);
        lemma_listed_range(handles, next[k - 1], handles.len() as int);
    } else {
        assert(t.take(0) =~= Seq::empty());
        t.take(0).to_multiset_ensures();
    }
}

proof fn lemma_listed_range(handles: Seq<u64>, h: u64, n: int)
    ensures
        listed(handles, h, n) matches Some(j) ==> 0 <= j < n,
    decreases n,
{
    if n > 0 {
        lemma_listed_range(handles, h, n - 1);
    }
}

/// Every edge runs forward: the listing order is a topological order.
pub proof fn law_edges_run_forward(handles: Seq<u64>, next: Seq<Vec<u64>>, i: int, k: int)
    requires
        fault(handles, next, handles.len() as int) is None,
        next.len() == handles.len(),
        0 <= i < next.len(),
        0 <= k < next[i]@.len(),
    ensures
        place(handles, next[i]@[k]) matches Some(j) && i < j < handles.len(),
{
    lemma_fault_prefix(handles, next, handles.len() as int, i);
    lemma_node_prefix(handles, i, next[i]@, next[i]@.len() as int, k);
    lemma_listed_range(handles, next[i]@[k], handles.len() as int);
}

proof fn lemma_node_prefix(handles: Seq<u64>, i: int, next: Seq<u64>, n: int, k: int)
    requires
        node_fault(handles, i, next, n) is None,
        0 <= k < n <= next.len(),
    ensures
        edge_fault(handles, i, next[k]) is None,
    decreases n,
{
    if k < n - 1 {
        lemma_node_prefix(handles, i, next, n - 1, k);
    }
}

/// A node is found under its own handle: with no two handles alike, the place of a
/// handle is that of the node that has it, and a handle no node has is nowhere.
pub proof fn law_a_handle_names_its_node(handles: Seq<u64>, h: u64, j: int)
    requires
        0 <= j < handles.len(),
        forall|a: int, b: int|
            0 <= a < b < handles.len() ==> #[trigger] handles[a] != #[trigger] handles[b],
    ensures
        place(handles, handles[j]) == Some(j),
        !handles.contains(h) ==> place(handles, h) is None,
        place(handles, h) matches Some(k) ==> 0 <= k < handles.len() && handles[k] == h,
{
    lemma_listed_under(handles, handles[j], handles.len() as int);
    lemma_listed_under(handles, h, handles.len() as int);
}

proof fn lemma_listed_under(handles: Seq<u64>, h: u64, n: int)
    requires
        0 <= n <= handles.len(),
    ensures
        match listed(handles, h, n) {
            Some(k) => 0 <= k < n && handles[k] == h,
            None => forall|k: int| 0 <= k < n ==> #[trigger] handles[k] != h,
        },
    decreases n,
{
    if n > 0 && handles[n - 1] != h {
        lemma_listed_under(handles, h, n - 1);
    }
}

/// A graph's edges are refused for the first that names no node, or names one that
/// does not come later; with every edge to a later node it is accepted.
pub proof fn law_a_graph_is_refused_for_its_first_bad_edge(
    handles: Seq<u64>,
    next: Seq<Vec<u64>>,
    n: int,
)
    requires
        0 <= n <= next.len(),
        forall|i: int, k: int|
            0 <= i < n && 0 <= k < next[i]@.len() ==> (place(
                handles,
                #[trigger] next[i]@[k],
            ) matches Some(j) && i < j),
    ensures
        fault(handles, next, n) is None,
    decreases n,
{
    if n > 0 {
        law_a_graph_is_refused_for_its_first_bad_edge(handles, next, n - 1);
        lemma_good_node(handles, n - 1, next[n - 1]@, next[n - 1]@.len() as int);
    }
}

proof fn lemma_good_node(handles: Seq<u64>, i: int, next: Seq<u64>, n: int)
    requires
        0 <= n <= next.len(),
        forall|k: int|
            0 <= k < next.len() ==> (place(handles, #[trigger] next[k]) matches Some(j) && i < j),
    ensures
        node_fault(handles, i, next, n) is None,
    decreases n,
{
    if n > 0 {
        lemma_good_node(handles, i, next, n - 1);
        assert(place(handles, next[n - 1]) is Some);
    }
}

/// The edges that run from a node to another are those of its list that name it,
/// each counted once, and a node's sources come in the order of the nodes.
pub proof fn law_a_nodes_sources_are_its_edges(
    handles: Seq<u64>,
    next: Seq<Vec<u64>>,
    j: int,
    n: int,
    i: int,
)
    requires
        0 <= i < n <= next.len() <= usize::MAX,
    ensures
        runs_to(handles, next[i]@, j, next[i]@.len() as int) == Set::new(
            |k: int| 0 <= k < next[i]@.len() && place(handles, next[i]@[k]) == Some(j),
        ).len(),
        ascending(sources(handles, next, j, n)),
        sources(handles, next, j, n).contains(i as usize) <==> exists|k: int|
            0 <= k < next[i]@.len() && place(handles, #[trigger] next[i]@[k]) == Some(j),
{
    let list = next[i]@;
    let len = list.len() as int;
    let p = |k: int| place(handles, list[k]) == Some(j);
    lemma_runs_are_counted(handles, list, j, len);
    crate::count::law_a_count_is_a_sets_size(len, p);
    let s = Set::new(|k: int| 0 <= k < list.len() && place(handles, list[k]) == Some(j));
    assert(Set::new(|k: int| 0 <= k < len && p(k)) =~= s);
    lemma_sources_ascend(handles, next, j, n, i);
    if exists|k: int| 0 <= k < list.len() && place(handles, #[trigger] list[k]) == Some(j) {
        let k = choose|k: int| 0 <= k < list.len() && place(handles, #[trigger] list[k]) == Some(j);
        assert(s.contains(k));
        assert(s.len() > 0) by {
            if s.len() == 0 {
                assert(s =~= Set::empty());
            }
        }
    } else {
        assert(s =~= Set::empty());
    }
}

proof fn lemma_runs_are_counted(handles: Seq<u64>, list: Seq<u64>, j: int, k: int)
    requires
        0 <= k <= list.len(),
    ensures
        runs_to(handles, list, j, k) == crate::count::count_where(
            k,
            |i: int| place(handles, list[i]) == Some(j),
        ),
    decreases k,
{
    if k > 0 {
        lemma_runs_are_counted(handles, list, j, k - 1);
    }
}

proof fn lemma_sources_ascend(handles: Seq<u64>, next: Seq<Vec<u64>>, j: int, n: int, i: int)
    requires
        0 <= n <= next.len() <= usize::MAX,
    ensures
        ascending(sources(handles, next, j, n)),
        forall|a: int| 0 <= a < sources(handles, next, j, n).len() ==> #[trigger] sources(
            handles,
            next,
            j,
            n,
        )[a] < n,
        0 <= i < n ==> (sources(handles, next, j, n).contains(i as usize) <==> runs_to(
            handles,
            next[i]@,
            j,
            next[i]@.len() as int,
        ) > 0),
    decreases n,
{
    if n > 0 {
        lemma_sources_ascend(handles, next, j, n - 1, i);
        let before = sources(handles, next, j, n - 1);
        let r = runs_to(handles, next[n - 1]@, j, next[n - 1]@.len() as int);
        let more = repeat((n - 1) as usize, r);
        let all = sources(handles, next, j, n);
        assert(all == before + more);
        assert forall|a: int| 0 <= a < all.len() implies #[trigger] all[a] < n by {
            if a < before.len() {
                assert(all[a] == before[a]);
            } else {
                assert(all[a] == more[a - before.len()]);
            }
        }
        assert forall|a: int, b: int| 0 <= a <= b < all.len() implies all[a] <= all[b] by {
            if b < before.len() {
                assert(all[a] == before[a] && all[b] == before[b]);
            } else {
                assert(all[b] == more[b - before.len()]);
                if a < before.len() {
                    assert(all[a] == before[a]);
                } else {
                    assert(all[a] == more[a - before.len()]);
                }
            }
        }
        if 0 <= i < n - 1 {
            if before.contains(i as usize) {
                let a = choose|a: int| 0 <= a < before.len() && before[a] == i as usize;
                assert(all[a] == i as usize);
            }
            if all.contains(i as usize) {
                let a = choose|a: int| 0 <= a < all.len() && all[a] == i as usize;
                if a < before.len() {
                    assert(before[a] == i as usize);
                } else {
                    assert(all[a] == more[a - before.len()]);
                }
            }
        } else if i == n - 1 {
            if r > 0 {
                assert(more[0] == i as usize);
                assert(all[before.len() as int] == i as usize);
            } else if all.contains(i as usize) {
                let a = choose|a: int| 0 <= a < all.len() && all[a] == i as usize;
                assert(all[a] == before[a]);
            }
        }
    }
}

/// A node is counted under the first kind of the list that is its own.
pub proof fn law_a_node_counts_under_its_kind(kinds: Seq<NodeKind>, kind: NodeKind, at: int, i: int)
    requires
        0 <= at <= i < kinds.len(),
    ensures
        match kind_index(kinds, kind, at) {
            Some(f) => at <= f < kinds.len() && kinds[f] == kind && (i < f ==> kinds[i] != kind),
            None => kinds[i] != kind,
        },
    decreases kinds.len() - at,
{
    if kinds[at] != kind && at + 1 < kinds.len() {
        law_a_node_counts_under_its_kind(
            kinds,
            kind,
            at + 1,
            if i > at {
                i
            } else {
                at + 1
            },
        );
    } else {
        reveal_with_fuel(kind_index, 2);
    }
}

/// A kind is told by its own word, and one without a word by its number: two kinds
/// are never told alike.
pub proof fn law_a_kind_is_told_by_its_word(a: NodeKind, b: NodeKind, n: u32, m: u32)
    ensures
        a.spelling() == b.spelling() ==> a == b,
        NodeKind::Type(n).spelling() == "type"@ + decimal(n as nat),
        NodeKind::Kernel.spelling() == "kernel"@,
        NodeKind::BatchMemOp.spelling() == "batch_mem_op"@,
{
    reveal_strlit("kernel");
    reveal_strlit("memcpy");
    reveal_strlit("memset");
    reveal_strlit("host");
    reveal_strlit("empty");
    reveal_strlit("wait_event");
    reveal_strlit("batch_mem_op");
    reveal_strlit("type");
    assert("kernel"@.len() == 6 && "memcpy"@.len() == 6 && "memset"@.len() == 6 && "host"@.len() == 4
        && "empty"@.len() == 5 && "wait_event"@.len() == 10 && "batch_mem_op"@.len() == 12);
    assert("kernel"@[0] == 'k' && "memcpy"@[0] == 'm' && "memset"@[0] == 'm' && "memcpy"@[3] == 'c'
        && "memset"@[3] == 's' && "host"@[0] == 'h' && "empty"@[0] == 'e' && "wait_event"@[0] == 'w'
        && "batch_mem_op"@[0] == 'b');
    if let NodeKind::Type(x) = a {
        lemma_numbered_kind(x);
        if let NodeKind::Type(y) = b {
            lemma_numbered_kind(y);
            if a.spelling() == b.spelling() {
                assert(a.spelling().skip(4) == b.spelling().skip(4));
            }
        }
    }
    if let NodeKind::Type(y) = b {
        lemma_numbered_kind(y);
    }
}

proof fn lemma_numbered_kind(n: u32)
    ensures
        NodeKind::Type(n).spelling().len() > 4,
        NodeKind::Type(n).spelling()[0] == 't',
        NodeKind::Type(n).spelling().skip(4) == decimal(n as nat),
        crate::text::number(decimal(n as nat), u32::MAX as nat) == Some(n as nat),
{
    reveal_strlit("type");
    crate::text::lemma_decimal_value(n as nat);
    crate::text::law_number_reads_decimal(n as nat, u32::MAX as nat);
    assert("type"@.len() == 4 && "type"@[0] == 't');
    assert(NodeKind::Type(n).spelling().skip(4) =~= decimal(n as nat));
}

} // verus!
