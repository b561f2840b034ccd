//! What the server says of its engine and asks of its sampler: the model's and
//! the placement's facts, the card's index, and the sampling parameters.
use crate::bits;
use crate::text;
use crate::text::decimal;
use crate::text::lex_less;
use crate::text::number;
use crate::text::opens_with;
use crate::text::trimmed;
use vstd::prelude::*;

verus! {

/// What a tensor is to the placement.
#[derive(Clone, Copy, Debug, PartialEq, Eq, Structural)]
pub enum Role {
    Attention,
    Router,
    HashTable,
    SharedExpert,
    RoutedExperts,
    FfnNorm,
    DenseFfn,
    EngramDense,
    EngramGain,
    EngramTable,
    TokenEmbedding,
    Head,
    HyperConnection,
    Unread,
    Unused,
}

/// The class a placement role's bytes are filed under, in the order of the
/// names.
#[derive(Clone, Copy, Debug, PartialEq, Eq, Structural)]
pub enum Class {
    Attention,
    Embeddings,
    Experts,
    Ffn,
    Ngram,
    Other,
    Output,
}

impl Class {
    /// The class's name.
    pub open spec fn spelling(self) -> Seq<char> {
        match self {
            Class::Attention => "attention"@,
            Class::Embeddings => "embeddings"@,
            Class::Experts => "experts"@,
            Class::Ffn => "ffn"@,
            Class::Ngram => "ngram"@,
            Class::Other => "other"@,
            Class::Output => "output"@,
        }
    }

    /// The class's name.
    pub fn name(self) -> (r: &'static str)
        ensures
            r@ == self.spelling(),
    {
        match self {
            Class::Attention => "attention",
            Class::Embeddings => "embeddings",
            Class::Experts => "experts",
            Class::Ffn => "ffn",
            Class::Ngram => "ngram",
            Class::Other => "other",
            Class::Output => "output",
        }
    }
}

/// The class of a role: the router and the shared expert are filed with the
/// routed experts and every engram tensor with the n-gram tables.
pub open spec fn class_for(role: Role) -> Class {
    match role {
        Role::Attention => Class::Attention,
        Role::Router | Role::HashTable | Role::SharedExpert | Role::RoutedExperts => Class::Experts,
        Role::FfnNorm | Role::DenseFfn => Class::Ffn,
        Role::EngramDense | Role::EngramGain | Role::EngramTable => Class::Ngram,
        Role::TokenEmbedding => Class::Embeddings,
        Role::Head => Class::Output,
        Role::HyperConnection | Role::Unread | Role::Unused => Class::Other,
    }
}

/// The class of a role.
pub fn class_of(role: Role) -> (r: Class)
    ensures
        r == class_for(role),
{
    match role {
        Role::Attention => Class::Attention,
        Role::Router | Role::HashTable | Role::SharedExpert | Role::RoutedExperts => Class::Experts,
        Role::FfnNorm | Role::DenseFfn => Class::Ffn,
        Role::EngramDense | Role::EngramGain | Role::EngramTable => Class::Ngram,
        Role::TokenEmbedding => Class::Embeddings,
        Role::Head => Class::Output,
        Role::HyperConnection | Role::Unread | Role::Unused => Class::Other,
    }
}

/// The classes in the order of their names.
pub open spec fn all_classes() -> Seq<Class> {
    seq![
        Class::Attention,
        Class::Embeddings,
        Class::Experts,
        Class::Ffn,
        Class::Ngram,
        Class::Other,
        Class::Output,
    ]
}

/// A stage's layers as `first-last`.
pub open spec fn range_text(start: usize, end: usize) -> Seq<char> {
    if end > start {
        decimal(start as nat) + seq!['-'] + decimal((end - 1) as nat)
    } else {
        "none"@
    }
}

/// A stage's layers as `first-last`, `none` of an empty stage.
pub fn layer_range(start: usize, end: usize) -> (r: String)
    ensures
        r@ == range_text(start, end),
{
    let mut out: Vec<char> = Vec::new();
    if end > start {
        text::push_decimal(&mut out, start as u64);
        out.push('-');
        text::push_decimal(&mut out, (end - 1) as u64);
    } else {
        text::push_str(&mut out, "none");
    }
    assert(out@ =~= range_text(start, end));
    text::string_of(out.as_slice())
}

// ------------------------------------------------------------ the model

/// A tensor as the model's facts count it: its role, its type's name where the
/// type has one, and its bytes in the file.
#[derive(Clone, Debug)]
pub struct TensorFact {
    pub role: Role,
    pub ty: Option<String>,
    pub bytes: u64,
}

/// A step reads the tensor whole and its type has a name: the row-gathered
/// tables and the never-read tensors are left out.
pub open spec fn is_read(t: TensorFact) -> bool {
    &&& t.ty is Some
    &&& t.role != Role::TokenEmbedding
    &&& t.role != Role::EngramTable
    &&& t.role != Role::Unread
    &&& t.role != Role::Unused
}

/// The bytes of a type among the first `n` tensors.
pub open spec fn type_bytes(ts: Seq<TensorFact>, name: Seq<char>, n: int) -> int
    decreases n,
{
    if n <= 0 {
        0
    } else {
        type_bytes(ts, name, n - 1) + (if is_read(ts[n - 1]) && ts[n - 1].ty->0@ == name {
            ts[n - 1].bytes as int
        } else {
            0
        })
    }
}

/// The bytes of the first `n` tensors.
pub open spec fn all_bytes(ts: Seq<TensorFact>, n: int) -> int
    decreases n,
{
    if n <= 0 {
        0
    } else {
        all_bytes(ts, n - 1) + ts[n - 1].bytes
    }
}

/// A type comes before another: it holds fewer bytes, or as many under an
/// earlier name.
pub open spec fn under(ts: Seq<TensorFact>, a: Seq<char>, b: Seq<char>) -> bool {
    let x = type_bytes(ts, a, ts.len() as int);
    let y = type_bytes(ts, b, ts.len() as int);
    x < y || (x == y && lex_less(a, b))
}

/// Whether a step reads the tensor.
fn reads(t: &TensorFact) -> (r: bool)
    ensures
        r == is_read(*t),
{
    let gathered: bool = t.role == Role::TokenEmbedding || t.role == Role::EngramTable || t.role
        == Role::Unread || t.role == Role::Unused;
    !gathered && t.ty.is_some()
}

proof fn lemma_type_bytes(ts: Seq<TensorFact>, name: Seq<char>, n: int, m: int)
    requires
        0 <= n <= m,
    ensures
        0 <= type_bytes(ts, name, n) <= all_bytes(ts, n) <= all_bytes(ts, m),
    decreases m,
{
    if n < m {
        lemma_type_bytes(ts, name, n, m - 1);
    } else if n > 0 {
        lemma_type_bytes(ts, name, n - 1, m - 1);
    }
}

/// The bytes of a type.
fn bytes_of(ts: &[TensorFact], name: &str) -> (r: u64)
    requires
        all_bytes(ts@, ts@.len() as int) <= u64::MAX,
    ensures
        r == type_bytes(ts@, name@, ts@.len() as int),
{
    let mut sum: u64 = 0;
    let mut i: usize = 0;
    while i < ts.len()
        invariant
            i <= ts@.len(),
            sum == type_bytes(ts@, name@, i as int),
            all_bytes(ts@, ts@.len() as int) <= u64::MAX,
        decreases ts@.len() - i,
    {
        proof {
            lemma_type_bytes(ts@, name@, i + 1, ts@.len() as int);
        }
        if reads(&ts[i]) {
            match &ts[i].ty {
                Some(ty) => {
                    if text::same_str(ty.as_str(), name) {
                        sum = sum + ts[i].bytes;
                    }
                },
                None => {},
            }
        }
        i += 1;
    }
    sum
}

/// A name is that of the type that holds the most bytes of the tensors a step
/// reads, the last name of those that hold as many; nothing of no such tensor.
pub open spec fn is_quant(ts: Seq<TensorFact>, q: Option<Seq<char>>) -> bool {
    match q {
        Some(q) => {
            &&& exists|i: int| 0 <= i < ts.len() && is_read(#[trigger] ts[i]) && ts[i].ty->0@ == q
            &&& forall|i: int|
                0 <= i < ts.len() && is_read(#[trigger] ts[i]) ==> ts[i].ty->0@ == q || under(
                    ts,
                    ts[i].ty->0@,
                    q,
                )
        },
        None => forall|i: int| 0 <= i < ts.len() ==> !is_read(#[trigger] ts[i]),
    }
}

/// A text's characters, where there is one.
pub open spec fn opt_text(s: Option<String>) -> Option<Seq<char>> {
    match s {
        Some(t) => Some(t@),
        None => None,
    }
}

/// The type that holds the most bytes of the tensors a step reads, the last
/// name of those that hold as many.
pub fn quant(ts: &[TensorFact]) -> (r: Option<String>)
    requires
        all_bytes(ts@, ts@.len() as int) <= u64::MAX,
    ensures
        is_quant(ts@, opt_text(r)),
{
    let mut best: Option<Vec<char>> = None;
    let mut most: u64 = 0;
    let mut i: usize = 0;
    while i < ts.len()
        invariant
            i <= ts@.len(),
            all_bytes(ts@, ts@.len() as int) <= u64::MAX,
            match best {
                Some(q) => {
                    &&& most == type_bytes(ts@, q@, ts@.len() as int)
                    &&& exists|k: int| 0 <= k < i && is_read(#[trigger] ts@[k]) && ts@[k].ty->0@
                        == q@
                    &&& forall|k: int|
                        0 <= k < i && is_read(#[trigger] ts@[k]) ==> ts@[k].ty->0@ == q@ || under(
                            ts@,
                            ts@[k].ty->0@,
                            q@,
                        )
                },
                None => forall|k: int| 0 <= k < i ==> !is_read(#[trigger] ts@[k]),
            },
        decreases ts@.len() - i,
    {
        if reads(&ts[i]) {
            match &ts[i].ty {
                Some(ty) => {
                    let bytes: u64 = bytes_of(ts, ty.as_str());
                    let cs: Vec<char> = text::chars_of(ty.as_str());
                    let takes: bool = match &best {
                        None => true,
                        Some(q) => bytes > most || (bytes == most && text::less(
                            q.as_slice(),
                            cs.as_slice(),
                        )),
                    };
                    if takes {
                        proof {
                            if best is Some {
                                let q = best->0@;
                                assert forall|k: int|
                                    0 <= k < i && is_read(#[trigger] ts@[k]) implies ts@[k].ty->0@
                                    == cs@ || under(ts@, ts@[k].ty->0@, cs@) by {
                                    let a = ts@[k].ty->0@;
                                    if lex_less(a, q) && lex_less(q, cs@) {
                                        text::lemma_lex_transitive(a, q, cs@, 0);
                                    }
                                }
                            }
                        }
                        best = Some(cs);
                        most = bytes;
                    } else {
                        proof {
                            let q = best->0@;
                            if !lex_less(cs@, q) && !lex_less(q, cs@) {
                                assert(cs@.take(0) =~= q.take(0));
                                text::lemma_lex_total(cs@, q, 0);
                            }
                        }
                    }
                    assert(ts@[i as int].ty->0@ == ty@);
                },
                None => {},
            }
        }
        i += 1;
    }
    match best {
        Some(q) => Some(text::string_of(q.as_slice())),
        None => None,
    }
}

/// What a model file states: its header's facts, its tensors, and the bytes of
/// each of its shards, where they could be read.
#[derive(Clone, Debug)]
pub struct ModelFacts {
    pub arch: Option<String>,
    pub tensors: Vec<TensorFact>,
    pub shards: Vec<Option<u64>>,
    pub layers: usize,
    pub experts: u64,
    pub experts_used: u64,
    pub ctx_train: Option<u64>,
}

/// What the server says of its model. A fact the file does not state is left
/// out.
#[derive(Clone, Debug)]
pub struct ModelProps {
    pub format: &'static str,
    pub arch: Option<String>,
    pub quant: Option<String>,
    pub bytes: Option<u64>,
    pub files: usize,
    pub n_layers: usize,
    pub n_experts: u64,
    pub n_experts_used: u64,
    pub ctx_train: Option<u64>,
}

/// The bytes of the first `n` shards that could be read.
pub open spec fn known_bytes(shards: Seq<Option<u64>>, n: int) -> int
    decreases n,
{
    if n <= 0 {
        0
    } else {
        known_bytes(shards, n - 1) + (match shards[n - 1] {
            Some(b) => b as int,
            None => 0,
        })
    }
}

/// The bytes on disk: every shard's, nothing where one could not be read.
pub open spec fn disk_bytes(shards: Seq<Option<u64>>) -> Option<int> {
    if forall|i: int| 0 <= i < shards.len() ==> #[trigger] shards[i] is Some {
        Some(known_bytes(shards, shards.len() as int))
    } else {
        None
    }
}

proof fn lemma_known_bytes_grow(shards: Seq<Option<u64>>, n: int, m: int)
    requires
        0 <= n <= m,
    ensures
        0 <= known_bytes(shards, n) <= known_bytes(shards, m),
    decreases m,
{
    if n < m {
        lemma_known_bytes_grow(shards, n, m - 1);
    } else if n > 0 {
        lemma_known_bytes_grow(shards, n - 1, m - 1);
    }
}

/// The bytes on disk.
fn shard_bytes(shards: &[Option<u64>]) -> (r: Option<u64>)
    requires
        known_bytes(shards@, shards@.len() as int) <= u64::MAX,
    ensures
        match r {
            Some(b) => disk_bytes(shards@) == Some(b as int),
            None => disk_bytes(shards@) is None,
        },
{
    let mut sum: u64 = 0;
    let mut i: usize = 0;
    while i < shards.len()
        invariant
            i <= shards@.len(),
            known_bytes(shards@, shards@.len() as int) <= u64::MAX,
            sum == known_bytes(shards@, i as int),
            forall|k: int| 0 <= k < i ==> #[trigger] shards@[k] is Some,
        decreases shards@.len() - i,
    {
        proof {
            lemma_known_bytes_grow(shards@, i + 1, shards@.len() as int);
        }
        match shards[i] {
            Some(b) => {
                sum = sum + b;
            },
            None => {
                assert(shards@[i as int] is None);
                return None;
            },
        }
        i += 1;
    }
    Some(sum)
}

/// What the server says of the model `f` states.
pub fn model_props(f: ModelFacts) -> (r: ModelProps)
    requires
        all_bytes(f.tensors@, f.tensors@.len() as int) <= u64::MAX,
        known_bytes(f.shards@, f.shards@.len() as int) <= u64::MAX,
    ensures
        r.format@ == "gguf"@,
        r.arch == f.arch,
        is_quant(f.tensors@, opt_text(r.quant)),
        match r.bytes {
            Some(b) => disk_bytes(f.shards@) == Some(b as int),
            None => disk_bytes(f.shards@) is None,
        },
        r.files == f.shards@.len(),
        r.n_layers == f.layers,
        r.n_experts == f.experts,
        r.n_experts_used == f.experts_used,
        r.ctx_train == f.ctx_train,
{
    ModelProps {
        format: "gguf",
        quant: quant(f.tensors.as_slice()),
        bytes: shard_bytes(f.shards.as_slice()),
        files: f.shards.len(),
        arch: f.arch,
        n_layers: f.layers,
        n_experts: f.experts,
        n_experts_used: f.experts_used,
        ctx_train: f.ctx_train,
    }
}

/// Every type a step reads holds no more bytes than the one that names the
/// quantization.
pub proof fn law_the_quant_holds_the_most(ts: Seq<TensorFact>, q: Seq<char>, i: int)
    requires
        is_quant(ts, Some(q)),
        0 <= i < ts.len(),
        is_read(ts[i]),
    ensures
        type_bytes(ts, ts[i].ty->0@, ts.len() as int) <= type_bytes(ts, q, ts.len() as int),
{
}

// ------------------------------------------------------------ the placement

/// Where a segment of a tensor lies.
#[derive(Clone, Copy, Debug, PartialEq, Eq, Structural)]
pub enum Device {
    Card(usize),
    Host,
    Nvme,
    Unused,
}

/// A segment of a tensor and its resident bytes.
#[derive(Clone, Copy, Debug, PartialEq, Eq, Structural)]
pub struct Segment {
    pub device: Device,
    pub resident_bytes: u64,
}

/// A plan's row: a tensor of the model by its index, and its segments.
#[derive(Clone, Debug)]
pub struct PlanRow {
    pub tensor: usize,
    pub segments: Vec<Segment>,
}

/// A card of the plan: its key and value bytes, cache and shadow, and its
/// stage's layers.
#[derive(Clone, Copy, Debug, PartialEq, Eq, Structural)]
pub struct PlanCard {
    pub kv_bytes: u64,
    pub first_layer: usize,
    pub end_layer: usize,
}

/// The plan an engine loads by, as its facts are read from it.
#[derive(Clone, Debug)]
pub struct PlanFacts {
    /// The model's tensors by role.
    pub roles: Vec<Role>,
    pub rows: Vec<PlanRow>,
    pub cards: Vec<PlanCard>,
}

/// One class's bytes on a device.
#[derive(Clone, Copy, Debug, PartialEq, Eq, Structural)]
pub struct ClassBytes {
    pub class: Class,
    pub bytes: u64,
}

/// What is said of one device.
#[derive(Clone, Debug)]
pub struct DeviceProps {
    pub device: String,
    /// The classes that lie on it, in the order of their names.
    pub class_bytes: Vec<ClassBytes>,
    /// A card's layers.
    pub layers: Option<String>,
}

/// What is said of a placement.
#[derive(Clone, Debug)]
pub struct PlacementProps {
    pub devices: Vec<DeviceProps>,
    pub vram_kv_bytes: u64,
}

/// Why nothing can be said of a placement.
#[derive(Clone, Copy, Debug, PartialEq, Eq, Structural)]
pub enum PropsError {
    /// There are not as many card names as cards.
    Names,
    /// A row names this tensor, past the model.
    PastModel(usize),
}

/// Two sums of what is there, `None` where nothing is.
pub open spec fn plus(a: Option<int>, b: Option<int>) -> Option<int> {
    match (a, b) {
        (None, _) => b,
        (_, None) => a,
        (Some(x), Some(y)) => Some(x + y),
    }
}

/// The bytes on a device of a row's first `k` segments.
pub open spec fn segment_bytes(segs: Seq<Segment>, device: Device, k: int) -> Option<int>
    decreases k,
{
    if k <= 0 {
        None
    } else {
        plus(
            segment_bytes(segs, device, k - 1),
            if segs[k - 1].device == device {
                Some(segs[k - 1].resident_bytes as int)
            } else {
                None
            },
        )
    }
}

/// The bytes of a class on a device among the first `n` rows.
pub open spec fn class_bytes(p: PlanFacts, device: Device, class: Class, n: int) -> Option<int>
    decreases n,
{
    if n <= 0 {
        None
    } else {
        let row = p.rows@[n - 1];
        plus(
            class_bytes(p, device, class, n - 1),
            if class_for(p.roles@[row.tensor as int]) == class {
                segment_bytes(row.segments@, device, row.segments@.len() as int)
            } else {
                None
            },
        )
    }
}

/// The bytes of a row's first `k` segments wherever they lie.
pub open spec fn row_bytes(segs: Seq<Segment>, k: int) -> int
    decreases k,
{
    if k <= 0 {
        0
    } else {
        row_bytes(segs, k - 1) + segs[k - 1].resident_bytes
    }
}

/// The bytes of the first `n` rows wherever they lie.
pub open spec fn plan_bytes(rows: Seq<PlanRow>, n: int) -> int
    decreases n,
{
    if n <= 0 {
        0
    } else {
        plan_bytes(rows, n - 1) + row_bytes(
            rows[n - 1].segments@,
            rows[n - 1].segments@.len() as int,
        )
    }
}

/// The key and value bytes of the first `n` cards.
pub open spec fn kv_bytes(cards: Seq<PlanCard>, n: int) -> int
    decreases n,
{
    if n <= 0 {
        0
    } else {
        kv_bytes(cards, n - 1) + cards[n - 1].kv_bytes
    }
}

/// The first row from `at` on that names a tensor past the model.
pub open spec fn past_model(p: PlanFacts, at: int) -> Option<int>
    decreases p.rows@.len() - at,
{
    if at < 0 || at >= p.rows@.len() {
        None
    } else if p.rows@[at].tensor >= p.roles@.len() {
        Some(at)
    } else {
        past_model(p, at + 1)
    }
}

/// A list holds exactly the classes that lie on a device, among the first `k`
/// classes, with their bytes.
pub open spec fn lists_classes(
    list: Seq<ClassBytes>,
    p: PlanFacts,
    device: Device,
    k: int,
) -> bool
    decreases k,
{
    if k <= 0 {
        list.len() == 0
    } else {
        let class = all_classes()[k - 1];
        match class_bytes(p, device, class, p.rows@.len() as int) {
            Some(b) => list.len() > 0 && list.last().class == class && list.last().bytes == b
                && lists_classes(list.drop_last(), p, device, k - 1),
            None => lists_classes(list, p, device, k - 1),
        }
    }
}

proof fn lemma_segment_bound(segs: Seq<Segment>, device: Device, k: int)
    ensures
        0 <= row_bytes(segs, k),
        segment_bytes(segs, device, k) matches Some(b) ==> 0 <= b <= row_bytes(segs, k),
    decreases k,
{
    if k > 0 {
        lemma_segment_bound(segs, device, k - 1);
    }
}

proof fn lemma_row_grows(segs: Seq<Segment>, k: int, n: int)
    requires
        0 <= k <= n,
    ensures
        row_bytes(segs, k) <= row_bytes(segs, n),
    decreases n,
{
    if k < n {
        lemma_row_grows(segs, k, n - 1);
    }
}

proof fn lemma_class_bound(p: PlanFacts, device: Device, class: Class, n: int, m: int)
    requires
        0 <= n <= m,
    ensures
        0 <= plan_bytes(p.rows@, n) <= plan_bytes(p.rows@, m),
        class_bytes(p, device, class, n) matches Some(b) ==> 0 <= b <= plan_bytes(p.rows@, n),
    decreases m,
{
    if n < m {
        lemma_class_bound(p, device, class, n, m - 1);
        let s = p.rows@[m - 1].segments@;
        lemma_segment_bound(s, device, s.len() as int);
    } else if n > 0 {
        lemma_class_bound(p, device, class, n - 1, m - 1);
        let s = p.rows@[n - 1].segments@;
        lemma_segment_bound(s, device, s.len() as int);
    }
}

/// The sum of two, where both are there.
fn sum(a: Option<u64>, b: Option<u64>) -> (r: Option<u64>)
    requires
        a matches Some(x) ==> b matches Some(y) ==> x + y <= u64::MAX,
    ensures
        opt_int(r) == plus(opt_int(a), opt_int(b)),
{
    match (a, b) {
        (None, _) => b,
        (_, None) => a,
        (Some(x), Some(y)) => Some(x + y),
    }
}

/// A sum as an integer.
pub open spec fn opt_int(a: Option<u64>) -> Option<int> {
    match a {
        Some(x) => Some(x as int),
        None => None,
    }
}

/// The bytes on a device of a row's segments.
fn sum_segments(segs: &Vec<Segment>, device: Device) -> (r: Option<u64>)
    requires
        row_bytes(segs@, segs@.len() as int) <= u64::MAX,
    ensures
        opt_int(r) == segment_bytes(segs@, device, segs@.len() as int),
{
    let mut total: Option<u64> = None;
    let mut k: usize = 0;
    while k < segs.len()
        invariant
            k <= segs@.len(),
            row_bytes(segs@, segs@.len() as int) <= u64::MAX,
            opt_int(total) == segment_bytes(segs@, device, k as int),
        decreases segs@.len() - k,
    {
        proof {
            lemma_segment_bound(segs@, device, k as int);
            lemma_row_grows(segs@, k + 1, segs@.len() as int);
        }
        let here: Option<u64> = if segs[k].device == device {
            Some(segs[k].resident_bytes)
        } else {
            None
        };
        total = sum(total, here);
        k += 1;
    }
    total
}

/// The bytes of a class on a device.
fn sum_class(p: &PlanFacts, device: Device, class: Class) -> (r: Option<u64>)
    requires
        plan_bytes(p.rows@, p.rows@.len() as int) <= u64::MAX,
        past_model(*p, 0) is None,
    ensures
        opt_int(r) == class_bytes(*p, device, class, p.rows@.len() as int),
{
    let mut total: Option<u64> = None;
    let mut n: usize = 0;
    while n < p.rows.len()
        invariant
            n <= p.rows@.len(),
            plan_bytes(p.rows@, p.rows@.len() as int) <= u64::MAX,
            past_model(*p, n as int) is None,
            opt_int(total) == class_bytes(*p, device, class, n as int),
        decreases p.rows@.len() - n,
    {
        let row: &PlanRow = &p.rows[n];
        proof {
            lemma_class_bound(*p, device, class, n as int, p.rows@.len() as int);
            lemma_class_bound(*p, device, class, n + 1, p.rows@.len() as int);
            lemma_segment_bound(row.segments@, device, row.segments@.len() as int);
        }
        let here: Option<u64> = if class_of(p.roles[row.tensor]) == class {
            sum_segments(&row.segments, device)
        } else {
            None
        };
        total = sum(total, here);
        n += 1;
    }
    total
}

/// The classes that lie on a device.
fn classes_on(p: &PlanFacts, device: Device) -> (r: Vec<ClassBytes>)
    requires
        plan_bytes(p.rows@, p.rows@.len() as int) <= u64::MAX,
        past_model(*p, 0) is None,
    ensures
        lists_classes(r@, *p, device, 7),
{
    let all: Vec<Class> = vec![
        Class::Attention,
        Class::Embeddings,
        Class::Experts,
        Class::Ffn,
        Class::Ngram,
        Class::Other,
        Class::Output,
    ];
    assert(all@ =~= all_classes());
    let mut out: Vec<ClassBytes> = Vec::new();
    let mut k: usize = 0;
    while k < 7
        invariant
            k <= 7,
            all@ == all_classes(),
            plan_bytes(p.rows@, p.rows@.len() as int) <= u64::MAX,
            past_model(*p, 0) is None,
            lists_classes(out@, *p, device, k as int),
        decreases 7 - k,
    {
        let class: Class = all[k];
        match sum_class(p, device, class) {
            Some(bytes) => {
                let ghost held = out@;
                out.push(ClassBytes { class, bytes });
                assert(out@.drop_last() =~= held);
            },
            None => {},
        }
        k += 1;
    }
    out
}

/// What is said of device `c` of a placement: the cards by their names, then
/// the host.
pub open spec fn says(d: DeviceProps, p: PlanFacts, gpus: Seq<String>, c: int) -> bool {
    if c < p.cards@.len() {
        &&& d.device@ == gpus[c]@
        &&& lists_classes(d.class_bytes@, p, Device::Card(c as usize), 7)
        &&& d.layers matches Some(l) && l@ == range_text(
            p.cards@[c].first_layer,
            p.cards@[c].end_layer,
        )
    } else {
        &&& d.device@ == "CPU"@
        &&& lists_classes(d.class_bytes@, p, Device::Host, 7)
        &&& d.layers is None
    }
}

/// What is said of `plan`, the plan the engine loads by: per card, named
/// `gpus[c]`, the resident bytes of its segments by class and its stage's
/// layers; then the host's (`CPU`) the same way; and the cards' key and value
/// bytes. Only the plan's own rows are summed. The NVMe tier holds no resident
/// bytes and is no device here.
pub fn placement_props(p: &PlanFacts, gpus: &[String]) -> (r: Result<PlacementProps, PropsError>)
    requires
        plan_bytes(p.rows@, p.rows@.len() as int) <= u64::MAX,
        kv_bytes(p.cards@, p.cards@.len() as int) <= u64::MAX,
    ensures
        match r {
            Ok(props) => {
                &&& gpus@.len() == p.cards@.len()
                &&& past_model(*p, 0) is None
                &&& props.devices@.len() == p.cards@.len() + 1
                &&& forall|c: int|
                    0 <= c <= p.cards@.len() ==> says(
                        #[trigger] props.devices@[c],
                        *p,
                        gpus@,
                        c,
                    )
                &&& props.vram_kv_bytes == kv_bytes(p.cards@, p.cards@.len() as int)
            },
            Err(PropsError::Names) => gpus@.len() != p.cards@.len(),
            Err(PropsError::PastModel(t)) => gpus@.len() == p.cards@.len() && (past_model(
                *p,
                0,
            ) matches Some(i) && p.rows@[i].tensor == t),
        },
{
    if gpus.len() != p.cards.len() {
        return Err(PropsError::Names);
    }
    let mut i: usize = 0;
    while i < p.rows.len()
        invariant
            i <= p.rows@.len(),
            gpus@.len() == p.cards@.len(),
            past_model(*p, 0) == past_model(*p, i as int),
        decreases p.rows@.len() - i,
    {
        if p.rows[i].tensor >= p.roles.len() {
            return Err(PropsError::PastModel(p.rows[i].tensor));
        }
        i += 1;
    }
    let mut devices: Vec<DeviceProps> = Vec::new();
    let mut kv: u64 = 0;
    let mut c: usize = 0;
    while c < p.cards.len()
        invariant
            c <= p.cards@.len() == gpus@.len(),
            plan_bytes(p.rows@, p.rows@.len() as int) <= u64::MAX,
            kv_bytes(p.cards@, p.cards@.len() as int) <= u64::MAX,
            past_model(*p, 0) is None,
            devices@.len() == c,
            kv == kv_bytes(p.cards@, c as int),
            forall|k: int| 0 <= k < c ==> says(#[trigger] devices@[k], *p, gpus@, k),
        decreases p.cards@.len() - c,
    {
        let card: PlanCard = p.cards[c];
        proof {
            lemma_kv_grows(p.cards@, c + 1, p.cards@.len() as int);
        }
        kv = kv + card.kv_bytes;
        devices.push(
            DeviceProps {
                device: text::string_of(text::chars_of(gpus[c].as_str()).as_slice()),
                class_bytes: classes_on(p, Device::Card(c)),
                layers: Some(layer_range(card.first_layer, card.end_layer)),
            },
        );
        c += 1;
    }
    devices.push(
        DeviceProps {
            device: text::string_of(text::chars_of("CPU").as_slice()),
            class_bytes: classes_on(p, Device::Host),
            layers: None,
        },
    );
    Ok(PlacementProps { devices, vram_kv_bytes: kv })
}

proof fn lemma_kv_grows(cards: Seq<PlanCard>, k: int, n: int)
    requires
        0 <= k <= n,
    ensures
        kv_bytes(cards, k) <= kv_bytes(cards, n),
    decreases n,
{
    if k < n {
        lemma_kv_grows(cards, k, n - 1);
    }
}

/// The bytes on a device among the first `n` rows, whatever their class.
pub open spec fn device_bytes(rows: Seq<PlanRow>, device: Device, n: int) -> int
    decreases n,
{
    if n <= 0 {
        0
    } else {
        let s = rows[n - 1].segments@;
        device_bytes(rows, device, n - 1) + (match segment_bytes(s, device, s.len() as int) {
            Some(b) => b,
            None => 0,
        })
    }
}

/// What is there, 0 where nothing is.
pub open spec fn or_none(a: Option<int>) -> int {
    match a {
        Some(x) => x,
        None => 0,
    }
}

/// The bytes of the first `k` classes on a device, together.
pub open spec fn classes_sum(p: PlanFacts, device: Device, n: int, k: int) -> int
    decreases k,
{
    if k <= 0 {
        0
    } else {
        classes_sum(p, device, n, k - 1) + or_none(
            class_bytes(p, device, all_classes()[k - 1], n),
        )
    }
}

/// A device's classes add up to its resident bytes.
pub proof fn law_classes_add_up(p: PlanFacts, device: Device, n: int)
    requires
        0 <= n <= p.rows@.len(),
    ensures
        classes_sum(p, device, n, 7) == device_bytes(p.rows@, device, n),
    decreases n,
{
    if n > 0 {
        law_classes_add_up(p, device, n - 1);
        let class = class_for(p.roles@[p.rows@[n - 1].tensor as int]);
        let at = class_place(class);
        assert(all_classes()[at] == class);
        lemma_classes_step(p, device, n, 7, at);
    } else {
        lemma_classes_none(p, device, 7);
    }
}

/// Where a class stands among the names.
spec fn class_place(c: Class) -> int {
    match c {
        Class::Attention => 0,
        Class::Embeddings => 1,
        Class::Experts => 2,
        Class::Ffn => 3,
        Class::Ngram => 4,
        Class::Other => 5,
        Class::Output => 6,
    }
}

proof fn lemma_classes_none(p: PlanFacts, device: Device, k: int)
    requires
        k <= 7,
    ensures
        classes_sum(p, device, 0, k) == 0,
    decreases k,
{
    if k > 0 {
        lemma_classes_none(p, device, k - 1);
    }
}

proof fn lemma_classes_step(p: PlanFacts, device: Device, n: int, k: int, at: int)
    requires
        0 < n,
        0 <= k <= 7,
        0 <= at < 7,
        class_for(p.roles@[p.rows@[n - 1].tensor as int]) == all_classes()[at],
    ensures
        classes_sum(p, device, n, k) == classes_sum(p, device, n - 1, k) + (if at < k {
            or_none(
                segment_bytes(
                    p.rows@[n - 1].segments@,
                    device,
                    p.rows@[n - 1].segments@.len() as int,
                ),
            )
        } else {
            0
        }),
    decreases k,
{
    if k > 0 {
        lemma_classes_step(p, device, n, k - 1, at);
        if k - 1 != at {
            assert(class_place(all_classes()[k - 1]) == k - 1);
            assert(class_place(all_classes()[at]) == at);
        }
    }
}

// ------------------------------------------------------------ the card

/// A text holds another.
pub open spec fn contains(s: Seq<char>, t: Seq<char>) -> bool {
    exists|i: int| 0 <= i <= s.len() - t.len() && #[trigger] opens_with(s.skip(i), t)
}

/// Whether a text holds another.
fn holds(s: &[char], t: &[char]) -> (r: bool)
    ensures
        r == contains(s@, t@),
{
    let n: usize = s.len();
    let m: usize = t.len();
    if m > n {
        return false;
    }
    let last: usize = n - m;
    let mut i: usize = 0;
    while i < last
        invariant
            last + m == n == s@.len(),
            m == t@.len(),
            i <= last,
            forall|k: int| 0 <= k < i ==> !#[trigger] opens_with(s@.skip(k), t@),
        decreases last - i,
    {
        if holds_at(s, t, i) {
            return true;
        }
        i += 1;
    }
    holds_at(s, t, last)
}

/// Whether a text holds another from `at` on.
fn holds_at(s: &[char], t: &[char], at: usize) -> (r: bool)
    requires
        at <= s@.len(),
    ensures
        r == opens_with(s@.skip(at as int), t@),
{
    let rest: Vec<char> = text::piece(s, at, s.len());
    assert(rest@ =~= s@.skip(at as int));
    text::starts(rest.as_slice(), t)
}

/// The last separator of the first `n` characters.
pub open spec fn last_index(s: Seq<char>, sep: char, n: int) -> Option<int>
    decreases n,
{
    if n <= 0 {
        None
    } else if s[n - 1] == sep {
        Some(n - 1)
    } else {
        last_index(s, sep, n - 1)
    }
}

/// The last separator of a text.
fn find_last(s: &[char], sep: char) -> (r: Option<usize>)
    ensures
        match r {
            Some(i) => i < s@.len() && last_index(s@, sep, s@.len() as int) == Some(i as int),
            None => last_index(s@, sep, s@.len() as int) is None,
        },
{
    let mut n: usize = s.len();
    while n > 0
        invariant
            n <= s@.len(),
            last_index(s@, sep, s@.len() as int) == last_index(s@, sep, n as int),
        decreases n,
    {
        n -= 1;
        if s[n] == sep {
            return Some(n);
        }
    }
    None
}

/// A device's id opens with one of those listed; every one does where none
/// are.
pub open spec fn shown(uuid: Seq<char>, visible: Option<Seq<Seq<char>>>) -> bool {
    match visible {
        None => true,
        Some(ids) => opens_with_any(uuid, ids),
    }
}

/// A text opens with one of a list.
pub open spec fn opens_with_any(s: Seq<char>, list: Seq<Seq<char>>) -> bool {
    exists|k: int| 0 <= k < list.len() && opens_with(s, #[trigger] list[k])
}

/// What a visible-devices list names: its ids, where they are all UUIDs.
pub open spec fn visible_ids(v: Seq<char>) -> Option<Seq<Seq<char>>> {
    let ids = text::all_trimmed(text::split(v, ','));
    if forall|k: int| 0 <= k < ids.len() ==> opens_with(#[trigger] ids[k], "GPU-"@) {
        Some(ids)
    } else {
        None
    }
}

/// What one line of `index, name, uuid` names: the index of a shown device
/// whose name holds `name`.
pub open spec fn listed_index(
    line: Seq<char>,
    name: Seq<char>,
    visible: Option<Seq<Seq<char>>>,
) -> Option<nat> {
    match text::cut_once(line, ',') {
        None => None,
        Some((index, rest)) => match last_index(rest, ',', rest.len() as int) {
            None => None,
            Some(at) => if contains(rest.take(at), name) && shown(
                trimmed(rest.skip(at + 1)),
                visible,
            ) {
                number(trimmed(index), u32::MAX as nat)
            } else {
                None
            },
        },
    }
}

/// The indices that lines name.
pub open spec fn listed_indices(
    lines: Seq<Seq<char>>,
    name: Seq<char>,
    visible: Option<Seq<Seq<char>>>,
) -> Seq<nat>
    decreases lines.len(),
{
    if lines.len() == 0 {
        seq![]
    } else {
        let before = listed_indices(lines.drop_last(), name, visible);
        match listed_index(lines.last(), name, visible) {
            Some(i) => before.push(i),
            None => before,
        }
    }
}

/// The ids of a visible-devices list, where they are all UUIDs.
fn parse_visible(v: &str) -> (r: Option<Vec<Vec<char>>>)
    ensures
        match r {
            Some(ids) => visible_ids(v@) == Some(text::pieces(ids@)),
            None => visible_ids(v@) is None,
        },
{
    let parts: Vec<Vec<char>> = text::split_at_each(text::chars_of(v).as_slice(), ',');
    let ghost ids = text::all_trimmed(text::split(v@, ','));
    let head: Vec<char> = text::chars_of("GPU-");
    let mut out: Vec<Vec<char>> = Vec::new();
    let mut i: usize = 0;
    while i < parts.len()
        invariant
            i <= parts@.len(),
            text::pieces(parts@) == text::split(v@, ','),
            ids == text::all_trimmed(text::split(v@, ',')),
            head@ == "GPU-"@,
            text::pieces(out@) =~= ids.take(i as int),
            forall|k: int| 0 <= k < i ==> opens_with(#[trigger] ids[k], "GPU-"@),
        decreases parts@.len() - i,
    {
        let id: Vec<char> = text::trim(parts[i].as_slice());
        assert(text::pieces(parts@)[i as int] == parts@[i as int]@);
        assert(ids[i as int] == id@);
        if !text::starts(id.as_slice(), head.as_slice()) {
            return None;
        }
        let ghost held = text::pieces(out@);
        let ghost added = id@;
        out.push(id);
        assert(text::pieces(out@) =~= held.push(added));
        i += 1;
    }
    assert(ids.take(ids.len() as int) =~= ids);
    Some(out)
}

/// The ids of a list, where there is one.
pub open spec fn opt_pieces(v: Option<Vec<Vec<char>>>) -> Option<Seq<Seq<char>>> {
    match v {
        Some(ids) => Some(text::pieces(ids@)),
        None => None,
    }
}

/// Whether a text opens with one of a list.
fn starts_with_any(s: &[char], list: &Vec<Vec<char>>) -> (r: bool)
    ensures
        r == opens_with_any(s@, text::pieces(list@)),
{
    let ghost all = text::pieces(list@);
    let mut i: usize = 0;
    while i < list.len()
        invariant
            i <= list@.len(),
            all == text::pieces(list@),
            forall|k: int| 0 <= k < i ==> !opens_with(s@, #[trigger] all[k]),
        decreases list@.len() - i,
    {
        assert(all[i as int] == list@[i as int]@);
        if text::starts(s, list[i].as_slice()) {
            assert(opens_with(s@, all[i as int]));
            return true;
        }
        i += 1;
    }
    false
}

/// Whether a device is shown.
fn is_shown(uuid: &[char], visible: &Option<Vec<Vec<char>>>) -> (r: bool)
    ensures
        r == shown(uuid@, opt_pieces(*visible)),
{
    match visible {
        None => true,
        Some(ids) => starts_with_any(uuid, ids),
    }
}

/// What one line names.
fn line_index(line: &[char], name: &[char], visible: &Option<Vec<Vec<char>>>) -> (r: Option<u32>)
    ensures
        match r {
            Some(i) => listed_index(line@, name@, opt_pieces(*visible)) == Some(i as nat),
            None => listed_index(line@, name@, opt_pieces(*visible)) is None,
        },
{
    match text::split_once(line, ',') {
        None => None,
        Some((index, rest)) => match find_last(rest.as_slice(), ',') {
            None => None,
            Some(at) => {
                let gpu: Vec<char> = text::piece(rest.as_slice(), 0, at);
                let end: usize = rest.len();
                let tail: Vec<char> = text::piece(rest.as_slice(), at + 1, end);
                assert(gpu@ =~= rest@.take(at as int));
                assert(tail@ =~= rest@.skip(at + 1));
                let uuid: Vec<char> = text::trim(tail.as_slice());
                if holds(gpu.as_slice(), name) && is_shown(uuid.as_slice(), visible) {
                    match text::parse_number(
                        text::trim(index.as_slice()).as_slice(),
                        u32::MAX as u64,
                    ) {
                        Some(n) => Some(n as u32),
                        None => None,
                    }
                } else {
                    None
                }
            },
        },
    }
}

/// The index of the card this process opens by the placement name `name`, out
/// of a listing of `index, name, uuid` lines: among the devices so named,
/// narrowed to the visible ones when that list names UUIDs. Exactly one, or
/// how many there are.
pub fn nvidia_smi_index(listing: &str, name: &str, visible: Option<&str>) -> (r: Result<
    u32,
    usize,
>)
    ensures
        ({
            let ids = match visible {
                Some(v) => visible_ids(v@),
                None => None,
            };
            let named = listed_indices(text::lines(listing@), name@, ids);
            match r {
                Ok(i) => named.len() == 1 && named[0] == i,
                Err(n) => named.len() == n && n != 1,
            }
        }),
{
    let ids: Option<Vec<Vec<char>>> = match visible {
        Some(v) => parse_visible(v),
        None => None,
    };
    let lines: Vec<Vec<char>> = text::lines_of(text::chars_of(listing).as_slice());
    let ghost all = text::lines(listing@);
    let wanted: Vec<char> = text::chars_of(name);
    let mut named: Vec<u32> = Vec::new();
    let mut i: usize = 0;
    assert(all.take(0) =~= seq![]);
    while i < lines.len()
        invariant
            i <= lines@.len(),
            text::pieces(lines@) == all,
            wanted@ == name@,
            text::nats(named@) =~= listed_indices(all.take(i as int), name@, opt_pieces(ids)),
        decreases lines@.len() - i,
    {
        proof {
            assert(all.take(i + 1).drop_last() =~= all.take(i as int));
            assert(all.take(i + 1).last() == lines@[i as int]@);
        }
        match line_index(lines[i].as_slice(), wanted.as_slice(), &ids) {
            Some(n) => {
                let ghost held = text::nats(named@);
                named.push(n);
                assert(text::nats(named@) =~= held.push(n as nat));
            },
            None => {},
        }
        i += 1;
    }
    assert(all.take(all.len() as int) =~= all);
    assert(text::nats(named@).len() == named@.len());
    if named.len() == 1 {
        assert(text::nats(named@)[0] == named@[0]);
        Ok(named[0])
    } else {
        Err(named.len())
    }
}

// ------------------------------------------------------------ sampling

/// A request's sampling parameters, singles by their bits.
#[derive(Clone, Copy, Debug, PartialEq, Eq, Structural)]
pub struct SamplingParams {
    pub temperature: u32,
    pub top_k: i64,
    pub top_p: u32,
    pub min_p: u32,
    pub seed: u64,
}

/// The sampler chain's parameters, singles by their bits.
#[derive(Clone, Copy, Debug, PartialEq, Eq, Structural)]
pub struct SamplerParams {
    pub temperature: u32,
    pub top_k: u32,
    pub top_p: u32,
    pub min_p: u32,
    pub repeat_penalty: u32,
    pub repeat_last_n: u32,
    pub seed: u64,
}

/// The bits of 1.
pub const ONE: u32 = 0x3f80_0000;

/// A request's parameters as the sampler's chain: no repetition penalty,
/// `top_k <= 0` keeps every candidate (as does one past 32 bits), and a
/// `min_p` past 1 keeps only the best candidate, as 1 does.
pub fn sampler_params(p: &SamplingParams) -> (r: SamplerParams)
    ensures
        r == (SamplerParams {
            temperature: p.temperature,
            top_k: if 0 <= p.top_k <= u32::MAX {
                p.top_k as u32
            } else {
                0
            },
            top_p: p.top_p,
            min_p: if bits::less(p.min_p, ONE) {
                p.min_p
            } else {
                ONE
            },
            repeat_penalty: ONE,
            repeat_last_n: 0,
            seed: p.seed,
        }),
{
    SamplerParams {
        temperature: p.temperature,
        top_k: if 0 <= p.top_k && p.top_k <= u32::MAX as i64 {
            p.top_k as u32
        } else {
            0
        },
        top_p: p.top_p,
        min_p: if bits::is_less(p.min_p, ONE) {
            p.min_p
        } else {
            ONE
        },
        repeat_penalty: ONE,
        repeat_last_n: 0,
        seed: p.seed,
    }
}

// ------------------------------------------------------------ what the sums hold

/// A tensor adds its bytes to its own type where a step reads it, and to no other;
/// the embedding, an engram's table and what is not read or not used add to none.
pub proof fn law_a_tensor_adds_its_bytes(ts: Seq<TensorFact>, t: TensorFact, name: Seq<char>)
    ensures
        ({
            let n = ts.len() as int;
            let more = type_bytes(ts.push(t), name, n + 1) - type_bytes(ts, name, n);
            &&& t.ty is None ==> more == 0
            &&& t.role == Role::TokenEmbedding || t.role == Role::EngramTable || t.role
                == Role::Unread || t.role == Role::Unused ==> more == 0
            &&& t.ty matches Some(ty) ==> {
                &&& ty@ != name ==> more == 0
                &&& ty@ == name && (t.role == Role::Attention || t.role == Role::Router || t.role
                    == Role::HashTable || t.role == Role::SharedExpert || t.role
                    == Role::RoutedExperts || t.role == Role::FfnNorm || t.role == Role::DenseFfn
                    || t.role == Role::EngramDense || t.role == Role::EngramGain || t.role
                    == Role::Head || t.role == Role::HyperConnection) ==> more == t.bytes
            }
            &&& all_bytes(ts.push(t), n + 1) == all_bytes(ts, n) + t.bytes
            &&& type_bytes(Seq::empty(), name, 0) == 0
        }),
{
    lemma_type_bytes_of_prefix(ts, t, name, ts.len() as int);
}

proof fn lemma_type_bytes_of_prefix(ts: Seq<TensorFact>, t: TensorFact, name: Seq<char>, n: int)
    requires
        n <= ts.len(),
    ensures
        type_bytes(ts.push(t), name, n) == type_bytes(ts, name, n),
        all_bytes(ts.push(t), n) == all_bytes(ts, n),
    decreases n,
{
    if n > 0 {
        lemma_type_bytes_of_prefix(ts, t, name, n - 1);
        assert(ts.push(t)[n - 1] == ts[n - 1]);
    }
}

/// A model's size on disk is known where every file's is, and then is their sum.
pub proof fn law_the_files_sizes_add_up(shards: Seq<Option<u64>>, b: u64)
    ensures
        disk_bytes(seq![]) == Some(0int),
        disk_bytes(shards.push(None)) is None,
        disk_bytes(shards) is None ==> disk_bytes(shards.push(Some(b))) is None,
        disk_bytes(shards) matches Some(all) ==> disk_bytes(shards.push(Some(b))) == Some(all + b),
{
    lemma_known_of_prefix(shards, Some(b), shards.len() as int);
    let n = shards.len() as int;
    assert(shards.push(None)[n] is None);
    let more = shards.push(Some(b));
    assert(more[n] == Some(b));
    if disk_bytes(shards) is None {
        let i = choose|i: int| 0 <= i < n && #[trigger] shards[i] is None;
        assert(more[i] is None);
    } else {
        assert forall|i: int| 0 <= i < more.len() implies #[trigger] more[i] is Some by {
            if i < n {
                assert(more[i] == shards[i]);
            }
        }
    }
}

proof fn lemma_known_of_prefix(shards: Seq<Option<u64>>, b: Option<u64>, n: int)
    requires
        n <= shards.len(),
    ensures
        known_bytes(shards.push(b), n) == known_bytes(shards, n),
    decreases n,
{
    if n > 0 {
        lemma_known_of_prefix(shards, b, n - 1);
        assert(shards.push(b)[n - 1] == shards[n - 1]);
    }
}

/// A segment adds its resident bytes to its own device and to no other; a device
/// that holds no segment holds nothing, not zero bytes.
pub proof fn law_a_segment_adds_to_its_device(segs: Seq<Segment>, s: Segment, device: Device)
    ensures
        ({
            let n = segs.len() as int;
            let before = segment_bytes(segs, device, n);
            let after = segment_bytes(segs.push(s), device, n + 1);
            &&& s.device != device ==> after == before
            &&& s.device == device && before is None ==> after == Some(s.resident_bytes as int)
            &&& s.device == device && before is Some ==> after == Some(before->0 + s.resident_bytes)
            &&& segment_bytes(Seq::empty(), device, 0) is None
        }),
{
    lemma_segments_of_prefix(segs, s, device, segs.len() as int);
}

proof fn lemma_segments_of_prefix(segs: Seq<Segment>, s: Segment, device: Device, n: int)
    requires
        n <= segs.len(),
    ensures
        segment_bytes(segs.push(s), device, n) == segment_bytes(segs, device, n),
    decreases n,
{
    if n > 0 {
        lemma_segments_of_prefix(segs, s, device, n - 1);
        assert(segs.push(s)[n - 1] == segs[n - 1]);
    }
}

/// A card's cache adds its bytes, whatever the others hold.
pub proof fn law_the_caches_add_up(cards: Seq<PlanCard>, c: PlanCard)
    ensures
        kv_bytes(cards.push(c), cards.len() as int + 1) == kv_bytes(cards, cards.len() as int) + c.kv_bytes,
        kv_bytes(Seq::empty(), 0) == 0,
{
    lemma_kv_of_prefix(cards, c, cards.len() as int);
}

proof fn lemma_kv_of_prefix(cards: Seq<PlanCard>, c: PlanCard, n: int)
    requires
        n <= cards.len(),
    ensures
        kv_bytes(cards.push(c), n) == kv_bytes(cards, n),
    decreases n,
{
    if n > 0 {
        lemma_kv_of_prefix(cards, c, n - 1);
        assert(cards.push(c)[n - 1] == cards[n - 1]);
    }
}

/// A plan is refused for its first row whose tensor the model does not have.
pub proof fn law_a_plan_is_refused_for_its_first_row(p: PlanFacts, at: int, i: int)
    requires
        0 <= at <= i < p.rows@.len(),
    ensures
        match past_model(p, at) {
            Some(f) => at <= f < p.rows@.len() && p.rows@[f].tensor >= p.roles@.len() && (i < f
                ==> p.rows@[i].tensor < p.roles@.len()),
            None => p.rows@[i].tensor < p.roles@.len(),
        },
    decreases p.rows@.len() - at,
{
    if p.rows@[at].tensor < p.roles@.len() && at + 1 < p.rows@.len() {
        law_a_plan_is_refused_for_its_first_row(
            p,
            at + 1,
            if i > at {
                i
            } else {
                at + 1
            },
        );
    } else {
        reveal_with_fuel(past_model, 2);
    }
}

/// A device's list holds a class exactly where the device holds any of it, with its
/// bytes, each class once and in the order of their names.
pub proof fn law_a_devices_list_is_its_classes(
    list: Seq<ClassBytes>,
    p: PlanFacts,
    device: Device,
    i: int,
    j: int,
)
    requires
        lists_classes(list, p, device, 7),
    ensures
        0 <= i < list.len() ==> class_bytes(p, device, list[i].class, p.rows@.len() as int) == Some(
            list[i].bytes as int,
        ),
        0 <= i < j < list.len() ==> crate::text::lex_less(
            list[i].class.spelling(),
            list[j].class.spelling(),
        ),
        0 <= i < 7 && class_bytes(p, device, all_classes()[i], p.rows@.len() as int) is Some
            ==> exists|k: int| 0 <= k < list.len() && (#[trigger] list[k]).class == all_classes()[i],
{
    lemma_listed(list, p, device, 7);
    if 0 <= i < j < list.len() {
        lemma_spellings_ascend(list[i].class, list[j].class);
    }
}

proof fn lemma_listed(list: Seq<ClassBytes>, p: PlanFacts, device: Device, k: int)
    requires
        lists_classes(list, p, device, k),
        0 <= k <= 7,
    ensures
        forall|i: int|
            0 <= i < list.len() ==> class_place((#[trigger] list[i]).class) < k && class_bytes(
                p,
                device,
                list[i].class,
                p.rows@.len() as int,
            ) == Some(list[i].bytes as int),
        forall|i: int, j: int|
            0 <= i < j < list.len() ==> class_place((#[trigger] list[i]).class) < class_place(
                (#[trigger] list[j]).class,
            ),
        forall|c: int|
            0 <= c < k && class_bytes(
                p,
                device,
                #[trigger] all_classes()[c],
                p.rows@.len() as int,
            ) is Some ==> exists|i: int|
                0 <= i < list.len() && (#[trigger] list[i]).class == all_classes()[c],
    decreases k,
{
    if k > 0 {
        let class = all_classes()[k - 1];
        match class_bytes(p, device, class, p.rows@.len() as int) {
            Some(b) => {
                let w = list.drop_last();
                lemma_listed(w, p, device, k - 1);
                assert(list[list.len() - 1] == list.last());
                assert forall|i: int| 0 <= i < list.len() implies class_place(
                    (#[trigger] list[i]).class,
                ) < k && class_bytes(p, device, list[i].class, p.rows@.len() as int) == Some(
                    list[i].bytes as int,
                ) by {
                    if i < w.len() {
                        assert(w[i] == list[i]);
                    }
                }
                assert forall|i: int, j: int| 0 <= i < j < list.len() implies class_place(
                    (#[trigger] list[i]).class,
                ) < class_place((#[trigger] list[j]).class) by {
                    assert(w[i] == list[i]);
                    if j < w.len() {
                        assert(w[j] == list[j]);
                    }
                }
                assert forall|c: int|
                    0 <= c < k && class_bytes(
                        p,
                        device,
                        #[trigger] all_classes()[c],
                        p.rows@.len() as int,
                    ) is Some implies exists|i: int|
                    0 <= i < list.len() && (#[trigger] list[i]).class == all_classes()[c] by {
                    if c < k - 1 {
                        let i = choose|i: int|
                            0 <= i < w.len() && (#[trigger] w[i]).class == all_classes()[c];
                        assert(w[i] == list[i]);
                    }
                }
            },
            None => {
                lemma_listed(list, p, device, k - 1);
            },
        }
    }
}

proof fn lemma_spellings_ascend(a: Class, b: Class)
    requires
        class_place(a) < class_place(b),
    ensures
        crate::text::lex_less(a.spelling(), b.spelling()),
{
    reveal_strlit("attention");
    reveal_strlit("embeddings");
    reveal_strlit("experts");
    reveal_strlit("ffn");
    reveal_strlit("ngram");
    reveal_strlit("other");
    reveal_strlit("output");
    let (s, t) = (a.spelling(), b.spelling());
    if s[0] != t[0] {
        crate::text::law_dictionary_order(s, t, 0);
    } else {
        crate::text::law_dictionary_order(s, t, 1);
    }
}

/// A listed card is found by its line: the index before the first comma, the name
/// between it and the last, and the id behind the last.
pub proof fn law_a_card_is_listed_by_its_line(
    i: nat,
    mid: Seq<char>,
    uuid: Seq<char>,
    name: Seq<char>,
    visible: Option<Seq<Seq<char>>>,
)
    requires
        i <= u32::MAX,
        uuid.len() > 0,
        !uuid.contains(','),
        !text::is_whitespace(uuid[0]),
        !text::is_whitespace(uuid.last()),
    ensures
        ({
            let line = text::decimal(i) + seq![','] + (mid + seq![','] + uuid);
            listed_index(line, name, visible) == (if contains(mid, name) && shown(uuid, visible) {
                Some(i)
            } else {
                None
            })
        }),
        visible is None ==> shown(uuid, visible),
        visible matches Some(ids) ==> (shown(uuid, visible) <==> exists|k: int|
            0 <= k < ids.len() && (#[trigger] ids[k]).is_prefix_of(uuid)),
{
    let d = text::decimal(i);
    let rest = mid + seq![','] + uuid;
    let line = d + seq![','] + rest;
    text::lemma_decimal_value(i);
    assert forall|k: int| 0 <= k < d.len() implies line[k] != ',' by {
        assert(text::is_digit(d[k]));
        assert(line[k] == d[k]);
    }
    assert(line[d.len() as int] == ',');
    text::lemma_index_is(line, ',', 0, d.len() as int);
    assert(line.take(d.len() as int) =~= d);
    assert(line.skip(d.len() as int + 1) =~= rest);
    assert forall|k: int| mid.len() < k < rest.len() implies rest[k] != ',' by {
        assert(rest[k] == uuid[k - mid.len() - 1]);
    }
    assert(rest[mid.len() as int] == ',');
    lemma_last_index_is(rest, ',', rest.len() as int, mid.len() as int);
    assert(rest.take(mid.len() as int) =~= mid);
    assert(rest.skip(mid.len() as int + 1) =~= uuid);
    let none = Seq::<char>::empty();
    text::law_trimming_takes_the_ends(none, uuid, none);
    assert(none + uuid + none =~= uuid);
    assert(text::is_digit(d[0]) && text::is_digit(d[d.len() - 1]));
    text::law_trimming_takes_the_ends(none, d, none);
    assert(none + d + none =~= d);
    text::law_number_reads_decimal(i, u32::MAX as nat);
    if let Some(ids) = visible {
        assert forall|k: int| 0 <= k < ids.len() implies opens_with(uuid, #[trigger] ids[k])
            == ids[k].is_prefix_of(uuid) by {
            assert(uuid.subrange(0, ids[k].len() as int) =~= uuid.take(ids[k].len() as int));
        }
    }
}

proof fn lemma_last_index_is(s: Seq<char>, sep: char, n: int, i: int)
    requires
        0 <= i < n <= s.len(),
        s[i] == sep,
        forall|k: int| i < k < s.len() ==> s[k] != sep,
    ensures
        last_index(s, sep, n) == Some(i),
    decreases n - i,
{
    if i < n - 1 {
        lemma_last_index_is(s, sep, n - 1, i);
    }
}

/// A listing's cards are found line by line: a line that names one adds its index
/// behind those before it, and another adds nothing.
pub proof fn law_the_cards_are_listed_line_by_line(
    lines: Seq<Seq<char>>,
    line: Seq<char>,
    name: Seq<char>,
    visible: Option<Seq<Seq<char>>>,
)
    ensures
        listed_indices(seq![], name, visible).len() == 0,
        listed_index(line, name, visible) is None ==> listed_indices(lines.push(line), name, visible)
            == listed_indices(lines, name, visible),
        listed_index(line, name, visible) matches Some(i) ==> listed_indices(
            lines.push(line),
            name,
            visible,
        ) == listed_indices(lines, name, visible).push(i),
{
    assert(lines.push(line).drop_last() =~= lines);
}

/// The visible cards are told by id where every one of the list is an id; where one
/// is not, they are told by nothing.
pub proof fn law_visible_cards_are_ids(a: Seq<char>, b: Seq<char>)
    requires
        !a.contains(','),
        !b.contains(','),
        a.len() > 0 ==> !text::is_whitespace(a[0]) && !text::is_whitespace(a.last()),
        b.len() > 0 ==> !text::is_whitespace(b[0]) && !text::is_whitespace(b.last()),
    ensures
        "GPU-"@.is_prefix_of(a) && "GPU-"@.is_prefix_of(b) ==> visible_ids(a + seq![','] + b) == Some(
            seq![a, b],
        ),
        !"GPU-"@.is_prefix_of(a) || !"GPU-"@.is_prefix_of(b) ==> visible_ids(a + seq![','] + b)
            is None,
{
    text::law_a_separator_cuts(a, ',', b);
    text::law_a_separator_cuts(b, ',', seq![]);
    let parts = text::split(a + seq![','] + b, ',');
    assert(parts =~= seq![a, b]);
    let none = Seq::<char>::empty();
    text::law_trimming_takes_the_ends(none, a, none);
    text::law_trimming_takes_the_ends(none, b, none);
    assert(none + a + none =~= a);
    assert(none + b + none =~= b);
    let ids = text::all_trimmed(parts);
    assert(ids =~= seq![a, b]);
    let g = "GPU-"@;
    assert(g.len() <= a.len() ==> a.subrange(0, g.len() as int) =~= a.take(g.len() as int));
    assert(g.len() <= b.len() ==> b.subrange(0, g.len() as int) =~= b.take(g.len() as int));
    assert(opens_with(a, g) == g.is_prefix_of(a));
    assert(opens_with(b, g) == g.is_prefix_of(b));
    assert(ids[0] == a && ids[1] == b);
}

/// A row's bytes go to the class of its tensor's role on the devices that hold it,
/// and to no other class.
pub proof fn law_a_row_adds_to_its_class(p: PlanFacts, device: Device, class: Class, n: int)
    requires
        0 <= n < p.rows@.len(),
    ensures
        ({
            let row = p.rows@[n];
            let role = p.roles@[row.tensor as int];
            let own = (class == Class::Attention && role == Role::Attention) || (class
                == Class::Experts && (role == Role::Router || role == Role::HashTable || role
                == Role::SharedExpert || role == Role::RoutedExperts)) || (class == Class::Ffn && (
            role == Role::FfnNorm || role == Role::DenseFfn)) || (class == Class::Ngram && (role
                == Role::EngramDense || role == Role::EngramGain || role == Role::EngramTable)) || (
            class == Class::Embeddings && role == Role::TokenEmbedding) || (class == Class::Output
                && role == Role::Head) || (class == Class::Other && (role == Role::HyperConnection
                || role == Role::Unread || role == Role::Unused));
            let before = class_bytes(p, device, class, n);
            let after = class_bytes(p, device, class, n + 1);
            let held = segment_bytes(row.segments@, device, row.segments@.len() as int);
            &&& !own || held is None ==> after == before
            &&& own && held is Some && before is None ==> after == held
            &&& own && held is Some && before is Some ==> after == Some(before->0 + held->0)
        }),
{
}

/// A range of layers is told by its first and its last, an empty one as none.
pub proof fn law_a_range_is_told_by_its_ends(start: usize, end: usize)
    ensures
        end <= start ==> range_text(start, end) == "none"@,
        start < end ==> text::split(range_text(start, end), '-') == seq![
            text::decimal(start as nat),
            text::decimal((end - 1) as nat),
        ],
{
    if start < end {
        let (l, h) = (text::decimal(start as nat), text::decimal((end - 1) as nat));
        text::lemma_decimal_value(start as nat);
        text::lemma_decimal_value((end - 1) as nat);
        assert(!l.contains('-')) by {
            assert forall|i: int| 0 <= i < l.len() implies l[i] != '-' by {
                assert(text::is_digit(l[i]));
            }
        }
        assert(!h.contains('-')) by {
            assert forall|i: int| 0 <= i < h.len() implies h[i] != '-' by {
                assert(text::is_digit(h[i]));
            }
        }
        text::law_a_separator_cuts(l, '-', h);
        text::law_a_separator_cuts(h, '-', seq![]);
        assert(seq![l] + seq![h] =~= seq![l, h]);
    }
}

} // verus!
