//! The block harness: a whole forward pass compared, tap by tap, against a
//! dump set. The kernel gates judge single ops against exact references; this
//! is the layer where quantization noise is the signal, and the question is
//! "which op left its band first".
//!
//! Taps are fixed lists per block kind, in forward order, verified against the
//! manifest (type, op, shape template) before any number is read: a tap absent
//! from the dump is an error. View taps are read through their logical twins:
//! the block layer consumes the logical tensor, never the flat VIEW file. The
//! last block and the head run their FFN on the last token only; those taps
//! carry `last_token_only` and compare the dump's single column against the
//! engine's last token column.
//!
//! Relative errors and bands are singles by their bits.
use crate::bits;
use crate::files;
use crate::files::logical_read;
use crate::files::plain_read;
use crate::files::FileError;
use crate::manifest::product;
use crate::manifest::RefRow;
use crate::set::find_ref_row;
use crate::set::first_row;
use crate::text;
use crate::text::decimal;
use vstd::prelude::*;

verus! {

/// The dump's prompt length; every tap's token axis is checked against it (or
/// against 1 for `last_token_only` taps).
pub const M_TOKENS: usize = 6;

/// The model's hidden width.
pub const HIDDEN: u64 = 2048;

/// The attention's latent width.
pub const LATENT: u64 = 512;

/// The rotated part of a head.
pub const ROPE: u64 = 64;

/// Attention heads.
pub const N_HEADS: u64 = 16;

/// The query projection's rows: every head's two parts.
pub const Q_ROWS: u64 = 3072;

/// The unrotated part of a query head.
pub const NOPE: u64 = 128;

/// A query head: its unrotated and its rotated part.
pub const KQ_HEAD: u64 = 192;

/// A row of the compressed keys and values: the latent and the rotated part.
pub const KV_WIDTH: u64 = 576;

/// Experts a token uses.
pub const N_USED: u64 = 6;

/// Entries of the vocabulary.
pub const VOCAB: u64 = 102400;

/// One observable in the forward order of a block. The declaration order is
/// the forward order the first violation is reported in.
#[derive(Debug, Clone, Copy, PartialEq, Eq, Hash, Structural)]
pub enum TapKind {
    AttnNorm,
    Q,
    KvRopeCompressed,
    QRope,
    KRope,
    KvCompressed,
    KqvCompressed,
    KqvOut,
    FfnInp,
    FfnNorm,
    FfnMoeLogits,
    FfnMoeWeights,
    FfnMoeOut,
    FfnShexp,
    FfnOut,
    LOut,
    ResultNorm,
    ResultOutput,
}

/// The manifest contract of a tap kind: manifest `ne` with the token axis set
/// to 1 (multiply that axis by the compared token count for the check), the
/// axis index, the producing op, and the occurrence.
#[derive(Debug, Clone, Copy)]
pub struct TapShape {
    pub base: [u64; 4],
    pub token_axis: usize,
    pub op: &'static str,
    pub occurrence: u32,
}

impl TapKind {
    /// The dims of one token.
    pub open spec fn dims(self) -> Seq<u64> {
        match self {
            TapKind::Q => seq![Q_ROWS, 1, 1, 1],
            TapKind::KvRopeCompressed => seq![KV_WIDTH, 1, 1, 1],
            TapKind::QRope => seq![ROPE, N_HEADS, 1, 1],
            TapKind::KRope => seq![ROPE, 1, 1, 1],
            TapKind::KvCompressed => seq![LATENT, 1, 1, 1],
            TapKind::KqvCompressed => seq![LATENT, N_HEADS, 1, 1],
            TapKind::FfnMoeLogits => seq![64, 1, 1, 1],
            TapKind::FfnMoeWeights => seq![1, N_USED, 1, 1],
            TapKind::ResultOutput => seq![VOCAB, 1, 1, 1],
            _ => seq![HIDDEN, 1, 1, 1],
        }
    }

    /// The axis that counts tokens.
    pub open spec fn axis(self) -> int {
        match self {
            TapKind::QRope | TapKind::KRope | TapKind::KqvCompressed | TapKind::FfnMoeWeights => 2,
            _ => 1,
        }
    }

    /// The op that produces the tensor.
    pub open spec fn producer(self) -> Seq<char> {
        match self {
            TapKind::AttnNorm
            | TapKind::KvCompressed
            | TapKind::FfnNorm
            | TapKind::ResultNorm => "FUSED_RMS_NORM"@,
            TapKind::QRope | TapKind::KRope => "ROPE"@,
            TapKind::KqvCompressed => "FLASH_ATTN_EXT"@,
            TapKind::FfnInp | TapKind::FfnOut | TapKind::LOut => "ADD"@,
            TapKind::FfnMoeWeights => "GET_ROWS"@,
            TapKind::FfnMoeOut => "MUL_MULTI_ADD"@,
            _ => "MUL_MAT"@,
        }
    }

    /// Which tensor of the name it is: the post-op ones are the second,
    /// occurrence 0 being the VIEW of the base matmul.
    pub open spec fn nth(self) -> u32 {
        match self {
            TapKind::QRope | TapKind::KRope | TapKind::KvCompressed => 1,
            _ => 0,
        }
    }

    /// The kind's manifest contract.
    pub fn shape(self) -> (r: TapShape)
        ensures
            r.base@ == self.dims(),
            r.token_axis == self.axis(),
            r.op@ == self.producer(),
            r.occurrence == self.nth(),
    {
        let r: TapShape = match self {
            TapKind::AttnNorm => TapShape {
                base: [HIDDEN, 1, 1, 1],
                token_axis: 1,
                op: "FUSED_RMS_NORM",
                occurrence: 0,
            },
            TapKind::Q => TapShape {
                base: [Q_ROWS, 1, 1, 1],
                token_axis: 1,
                op: "MUL_MAT",
                occurrence: 0,
            },
            TapKind::KvRopeCompressed => TapShape {
                base: [KV_WIDTH, 1, 1, 1],
                token_axis: 1,
                op: "MUL_MAT",
                occurrence: 0,
            },
            TapKind::QRope => TapShape {
                base: [ROPE, N_HEADS, 1, 1],
                token_axis: 2,
                op: "ROPE",
                occurrence: 1,
            },
            TapKind::KRope => TapShape {
                base: [ROPE, 1, 1, 1],
                token_axis: 2,
                op: "ROPE",
                occurrence: 1,
            },
            TapKind::KvCompressed => TapShape {
                base: [LATENT, 1, 1, 1],
                token_axis: 1,
                op: "FUSED_RMS_NORM",
                occurrence: 1,
            },
            TapKind::KqvCompressed => TapShape {
                base: [LATENT, N_HEADS, 1, 1],
                token_axis: 2,
                op: "FLASH_ATTN_EXT",
                occurrence: 0,
            },
            TapKind::FfnInp | TapKind::FfnOut | TapKind::LOut => TapShape {
                base: [HIDDEN, 1, 1, 1],
                token_axis: 1,
                op: "ADD",
                occurrence: 0,
            },
            TapKind::FfnNorm | TapKind::ResultNorm => TapShape {
                base: [HIDDEN, 1, 1, 1],
                token_axis: 1,
                op: "FUSED_RMS_NORM",
                occurrence: 0,
            },
            TapKind::FfnMoeLogits => TapShape {
                base: [64, 1, 1, 1],
                token_axis: 1,
                op: "MUL_MAT",
                occurrence: 0,
            },
            TapKind::FfnMoeWeights => TapShape {
                base: [1, N_USED, 1, 1],
                token_axis: 2,
                op: "GET_ROWS",
                occurrence: 0,
            },
            TapKind::FfnMoeOut => TapShape {
                base: [HIDDEN, 1, 1, 1],
                token_axis: 1,
                op: "MUL_MULTI_ADD",
                occurrence: 0,
            },
            TapKind::KqvOut | TapKind::FfnShexp => TapShape {
                base: [HIDDEN, 1, 1, 1],
                token_axis: 1,
                op: "MUL_MAT",
                occurrence: 0,
            },
            TapKind::ResultOutput => TapShape {
                base: [VOCAB, 1, 1, 1],
                token_axis: 1,
                op: "MUL_MAT",
                occurrence: 0,
            },
        };
        assert(r.base@ =~= self.dims());
        r
    }

    /// The name without its layer.
    pub open spec fn name_stem(self) -> Seq<char> {
        match self {
            TapKind::AttnNorm => "attn_norm"@,
            TapKind::Q => "q"@,
            TapKind::KvRopeCompressed => "kv_rope_compressed"@,
            TapKind::QRope => "q_rope"@,
            TapKind::KRope => "k_rope"@,
            TapKind::KvCompressed => "kv_compressed"@,
            TapKind::KqvCompressed => "kqv_compressed"@,
            TapKind::KqvOut => "kqv_out"@,
            TapKind::FfnInp => "ffn_inp"@,
            TapKind::FfnNorm => "ffn_norm"@,
            TapKind::FfnMoeLogits => "ffn_moe_logits"@,
            TapKind::FfnMoeWeights => "ffn_moe_weights"@,
            TapKind::FfnMoeOut => "ffn_moe_out"@,
            TapKind::FfnShexp => "ffn_shexp"@,
            TapKind::FfnOut => "ffn_out"@,
            TapKind::LOut => "l_out"@,
            TapKind::ResultNorm => "result_norm"@,
            TapKind::ResultOutput => "result_output"@,
        }
    }

    /// Whether the kind is the head's.
    pub open spec fn in_head(self) -> bool {
        self == TapKind::ResultNorm || self == TapKind::ResultOutput
    }

    /// The dump tensor's name for this kind at `layer`.
    pub open spec fn named(self, layer: usize) -> Seq<char> {
        if self.in_head() {
            self.name_stem()
        } else {
            layered(self.name_stem(), layer)
        }
    }

    /// The dump tensor's name for this kind at `layer` (head tensors have no
    /// layer suffix).
    pub fn tensor_name(self, layer: usize) -> (r: String)
        ensures
            r@ == self.named(layer),
    {
        let stem: &str = match self {
            TapKind::AttnNorm => "attn_norm",
            TapKind::Q => "q",
            TapKind::KvRopeCompressed => "kv_rope_compressed",
            TapKind::QRope => "q_rope",
            TapKind::KRope => "k_rope",
            TapKind::KvCompressed => "kv_compressed",
            TapKind::KqvCompressed => "kqv_compressed",
            TapKind::KqvOut => "kqv_out",
            TapKind::FfnInp => "ffn_inp",
            TapKind::FfnNorm => "ffn_norm",
            TapKind::FfnMoeLogits => "ffn_moe_logits",
            TapKind::FfnMoeWeights => "ffn_moe_weights",
            TapKind::FfnMoeOut => "ffn_moe_out",
            TapKind::FfnShexp => "ffn_shexp",
            TapKind::FfnOut => "ffn_out",
            TapKind::LOut => "l_out",
            TapKind::ResultNorm => "result_norm",
            TapKind::ResultOutput => "result_output",
        };
        if self == TapKind::ResultNorm || self == TapKind::ResultOutput {
            text::string_of(text::chars_of(stem).as_slice())
        } else {
            at_layer(stem, layer)
        }
    }

    /// Values per compared token: the product of the shape's non-token axes.
    pub fn per_token(self) -> (r: usize)
        ensures
            r == product(self.dims()),
            0 < r <= VOCAB,
    {
        let s: TapShape = self.shape();
        proof {
            lemma_token_dims(self);
        }
        (s.base[0] * s.base[1] * s.base[2] * s.base[3]) as usize
    }

    /// Position in the block's forward order.
    pub open spec fn rank(self) -> int {
        match self {
            TapKind::AttnNorm => 0,
            TapKind::Q => 1,
            TapKind::KvRopeCompressed => 2,
            TapKind::QRope => 3,
            TapKind::KRope => 4,
            TapKind::KvCompressed => 5,
            TapKind::KqvCompressed => 6,
            TapKind::KqvOut => 7,
            TapKind::FfnInp => 8,
            TapKind::FfnNorm => 9,
            TapKind::FfnMoeLogits => 10,
            TapKind::FfnMoeWeights => 11,
            TapKind::FfnMoeOut => 12,
            TapKind::FfnShexp => 13,
            TapKind::FfnOut => 14,
            TapKind::LOut => 15,
            TapKind::ResultNorm => 16,
            TapKind::ResultOutput => 17,
        }
    }

    /// Position in the block's forward order.
    pub fn forward_rank(self) -> (r: usize)
        ensures
            r == self.rank(),
    {
        match self {
            TapKind::AttnNorm => 0,
            TapKind::Q => 1,
            TapKind::KvRopeCompressed => 2,
            TapKind::QRope => 3,
            TapKind::KRope => 4,
            TapKind::KvCompressed => 5,
            TapKind::KqvCompressed => 6,
            TapKind::KqvOut => 7,
            TapKind::FfnInp => 8,
            TapKind::FfnNorm => 9,
            TapKind::FfnMoeLogits => 10,
            TapKind::FfnMoeWeights => 11,
            TapKind::FfnMoeOut => 12,
            TapKind::FfnShexp => 13,
            TapKind::FfnOut => 14,
            TapKind::LOut => 15,
            TapKind::ResultNorm => 16,
            TapKind::ResultOutput => 17,
        }
    }
}

/// A name at a layer.
pub open spec fn layered(stem: Seq<char>, layer: usize) -> Seq<char> {
    stem + seq!['-'] + decimal(layer as nat)
}

/// A name at a layer.
pub(crate) fn at_layer(stem: &str, layer: usize) -> (r: String)
    ensures
        r@ == layered(stem@, layer),
{
    let mut out: Vec<char> = text::chars_of(stem);
    out.push('-');
    text::push_decimal(&mut out, layer as u64);
    assert(out@ =~= layered(stem@, layer));
    text::string_of(out.as_slice())
}

proof fn lemma_token_dims(kind: TapKind)
    ensures
        kind.dims().len() == 4,
        kind.dims()[3] == 1,
        kind.dims()[2] == 1,
        kind.dims()[0] * kind.dims()[1] == product(kind.dims()),
        0 < product(kind.dims()) <= VOCAB,
        kind.dims()[kind.axis()] == 1,
        kind.dims()[0] * kind.dims()[1] * kind.dims()[2] == product(kind.dims()),
{
}

/// The block flavours the harness knows; `Head` sorts after the last block
/// (layer value 27 with this model's 27 blocks).
#[derive(Debug, Clone, Copy, PartialEq, Eq, Structural)]
pub enum BlockKind {
    /// Layer 0: dense FFN, no router, no shared expert.
    Dense0,
    /// The layers between: routed MoE plus the shared expert, all tokens.
    Moe,
    /// The last layer: attention over all tokens, FFN on the last token only
    /// (its `ffn_inp` onward hold one column in the dump).
    Last,
    /// `result_norm` / `result_output`, the last token only.
    Head,
}

/// One comparison point: a tap kind at a layer. `occurrence` is fixed by the
/// kind (post-op tensors are occurrence 1); `last_token_only` narrows the
/// compared span to the dump's single last-token column. `op` is the producing
/// op the manifest row must carry, carried per tap because one name means
/// different graph nodes in different blocks (`ffn_out-0`, the dense block's
/// down-projection output, is MUL_MAT; the MoE blocks' `ffn_out-L`, the
/// moe+shexp sum, is ADD).
#[derive(Debug, Clone, Copy)]
pub struct Tap {
    pub kind: TapKind,
    pub layer: usize,
    pub occurrence: u32,
    pub op: &'static str,
    pub last_token_only: bool,
}

impl Tap {
    /// The tap is this kind's at this layer, produced by this op.
    pub open spec fn is_at(
        self,
        kind: TapKind,
        layer: usize,
        op: Seq<char>,
        last_token_only: bool,
    ) -> bool {
        &&& self.kind == kind
        &&& self.layer == layer
        &&& self.occurrence == kind.nth()
        &&& self.op@ == op
        &&& self.last_token_only == last_token_only
    }

    /// A tap of a kind at a layer.
    pub fn new(kind: TapKind, layer: usize, last_token_only: bool) -> (r: Tap)
        ensures
            r.is_at(kind, layer, kind.producer(), last_token_only),
    {
        let s: TapShape = kind.shape();
        Tap { kind, layer, occurrence: s.occurrence, op: s.op, last_token_only }
    }

    /// The tap with the manifest op overridden (the dense block's ffn_out).
    pub fn with_op(self, op: &'static str) -> (r: Tap)
        ensures
            r == (Tap { op, ..self }),
    {
        Tap {
            kind: self.kind,
            layer: self.layer,
            occurrence: self.occurrence,
            op,
            last_token_only: self.last_token_only,
        }
    }

    /// The dump tensor's name.
    pub fn name(&self) -> (r: String)
        ensures
            r@ == self.kind.named(self.layer),
    {
        self.kind.tensor_name(self.layer)
    }

    /// (layer, forward rank): the report's ordering key.
    pub fn order_key(&self) -> (r: (usize, usize))
        ensures
            r.0 == self.layer,
            r.1 == self.kind.rank(),
    {
        (self.layer, self.kind.forward_rank())
    }

    /// The tap comes before another in the report's order.
    pub open spec fn before(self, other: Tap) -> bool {
        self.layer < other.layer || (self.layer == other.layer && self.kind.rank()
            < other.kind.rank())
    }

    /// Tokens the tap compares.
    pub open spec fn tokens(self, m_tokens: usize) -> usize {
        if self.last_token_only {
            1
        } else {
            m_tokens
        }
    }

    /// The dims of a tap over the compared tokens.
    pub open spec fn wanted(self, m_tokens: usize) -> Seq<u64> {
        self.kind.dims().update(self.kind.axis(), self.tokens(m_tokens) as u64)
    }
}

/// The kinds of a block, in forward order.
pub open spec fn kinds(block: BlockKind) -> Seq<TapKind> {
    match block {
        BlockKind::Dense0 => seq![
            TapKind::AttnNorm,
            TapKind::Q,
            TapKind::KvRopeCompressed,
            TapKind::QRope,
            TapKind::KRope,
            TapKind::KvCompressed,
            TapKind::KqvCompressed,
            TapKind::KqvOut,
            TapKind::FfnInp,
            TapKind::FfnNorm,
            TapKind::FfnOut,
            TapKind::LOut,
        ],
        BlockKind::Moe | BlockKind::Last => seq![
            TapKind::AttnNorm,
            TapKind::Q,
            TapKind::KvRopeCompressed,
            TapKind::QRope,
            TapKind::KRope,
            TapKind::KvCompressed,
            TapKind::KqvCompressed,
            TapKind::KqvOut,
            TapKind::FfnInp,
            TapKind::FfnNorm,
            TapKind::FfnMoeLogits,
            TapKind::FfnMoeWeights,
            TapKind::FfnMoeOut,
            TapKind::FfnShexp,
            TapKind::FfnOut,
            TapKind::LOut,
        ],
        BlockKind::Head => seq![TapKind::ResultNorm, TapKind::ResultOutput],
    }
}

/// The op of a kind in a block: `ffn_out-0` is the down projection itself, the
/// MoE blocks' `ffn_out-L` the moe+shexp sum.
pub open spec fn block_op(block: BlockKind, kind: TapKind) -> Seq<char> {
    if block == BlockKind::Dense0 && kind == TapKind::FfnOut {
        "MUL_MAT"@
    } else {
        kind.producer()
    }
}

/// Whether a kind of a block holds the last token only: the last layer's
/// attention still runs over every token (later queries need the earlier
/// keys); from ffn_inp on the dump holds the last token only.
pub open spec fn block_narrow(block: BlockKind, kind: TapKind) -> bool {
    block == BlockKind::Head || (block == BlockKind::Last && kind.rank()
        >= TapKind::FfnInp.rank())
}

/// The tap list of a block.
pub open spec fn is_tap_list(list: Seq<Tap>, block: BlockKind, layer: usize) -> bool {
    &&& list.len() == kinds(block).len()
    &&& forall|i: int|
        0 <= i < list.len() ==> (#[trigger] list[i]).is_at(
            kinds(block)[i],
            layer,
            block_op(block, kinds(block)[i]),
            block_narrow(block, kinds(block)[i]),
        )
}

/// The fixed tap list of one block, in forward order. Every entry is verified
/// against the manifest before use; a tap absent from the dump is an error:
/// the lists are the complete contract, so a rename in the dumped graph fails
/// loudly here, not silently as a skipped comparison.
pub fn taps(kind: BlockKind, layer: usize) -> (r: Vec<Tap>)
    ensures
        is_tap_list(r@, kind, layer),
{
    let list: Vec<TapKind> = match kind {
        BlockKind::Dense0 => vec![
            TapKind::AttnNorm,
            TapKind::Q,
            TapKind::KvRopeCompressed,
            TapKind::QRope,
            TapKind::KRope,
            TapKind::KvCompressed,
            TapKind::KqvCompressed,
            TapKind::KqvOut,
            TapKind::FfnInp,
            TapKind::FfnNorm,
            TapKind::FfnOut,
            TapKind::LOut,
        ],
        BlockKind::Moe | BlockKind::Last => vec![
            TapKind::AttnNorm,
            TapKind::Q,
            TapKind::KvRopeCompressed,
            TapKind::QRope,
            TapKind::KRope,
            TapKind::KvCompressed,
            TapKind::KqvCompressed,
            TapKind::KqvOut,
            TapKind::FfnInp,
            TapKind::FfnNorm,
            TapKind::FfnMoeLogits,
            TapKind::FfnMoeWeights,
            TapKind::FfnMoeOut,
            TapKind::FfnShexp,
            TapKind::FfnOut,
            TapKind::LOut,
        ],
        BlockKind::Head => vec![TapKind::ResultNorm, TapKind::ResultOutput],
    };
    assert(list@ =~= kinds(kind));
    let mut out: Vec<Tap> = Vec::new();
    let mut i: usize = 0;
    while i < list.len()
        invariant
            i <= list@.len(),
            list@ == kinds(kind),
            out@.len() == i,
            forall|k: int|
                0 <= k < i ==> (#[trigger] out@[k]).is_at(
                    kinds(kind)[k],
                    layer,
                    block_op(kind, kinds(kind)[k]),
                    block_narrow(kind, kinds(kind)[k]),
                ),
        decreases list@.len() - i,
    {
        let k: TapKind = list[i];
        let narrow: bool = kind == BlockKind::Head || (kind == BlockKind::Last && k.forward_rank()
            >= TapKind::FfnInp.forward_rank());
        let t: Tap = Tap::new(k, layer, narrow);
        if kind == BlockKind::Dense0 && k == TapKind::FfnOut {
            out.push(t.with_op("MUL_MAT"));
        } else {
            out.push(t);
        }
        i += 1;
    }
    out
}

/// No two kinds share a place in the forward order.
pub proof fn law_rank_names_the_kind(a: TapKind, b: TapKind)
    ensures
        a.rank() == b.rank() ==> a == b,
        0 <= a.rank() < 18,
{
}

/// A block's taps stand in forward order, each kind once.
pub proof fn law_taps_stand_in_forward_order(
    list: Seq<Tap>,
    block: BlockKind,
    layer: usize,
    i: int,
    j: int,
)
    requires
        is_tap_list(list, block, layer),
        0 <= i < j < list.len(),
    ensures
        list[i].before(list[j]),
{
    assert(list[i].kind == kinds(block)[i] && list[j].kind == kinds(block)[j]);
    lemma_kinds_ranked(block, i, j);
}

proof fn lemma_kinds_ranked(block: BlockKind, i: int, j: int)
    requires
        0 <= i < j < kinds(block).len(),
    ensures
        kinds(block)[i].rank() < kinds(block)[j].rank(),
    decreases j - i,
{
    if i + 1 < j {
        lemma_kinds_ranked(block, i, j - 1);
        lemma_kinds_step(block, j - 1);
    } else {
        lemma_kinds_step(block, i);
    }
}

proof fn lemma_kinds_step(block: BlockKind, i: int)
    requires
        0 <= i < kinds(block).len() - 1,
    ensures
        kinds(block)[i].rank() < kinds(block)[i + 1].rank(),
{
}

/// A manifest row is not what a tap wants.
#[derive(Debug, Clone, Copy, PartialEq, Eq, Structural)]
pub struct NotTheTap;

/// A row is the tap's: f32, the tap's op, and the shape template with the
/// token axis at the compared width.
pub open spec fn row_is(row: RefRow, tap: Tap, m_tokens: usize) -> bool {
    &&& row.ty@ == "f32"@
    &&& row.ne@ == tap.wanted(m_tokens)
    &&& row.op@ == tap.op@
}

/// Verifies a manifest row against a tap's contract.
pub fn check_row(row: &RefRow, tap: &Tap, m_tokens: usize) -> (r: Result<(), NotTheTap>)
    ensures
        r is Ok <==> row_is(*row, *tap, m_tokens),
{
    let s: TapShape = tap.kind.shape();
    let m_eff: u64 = if tap.last_token_only {
        1
    } else {
        m_tokens as u64
    };
    let axis: usize = s.token_axis;
    proof {
        lemma_token_dims(tap.kind);
    }
    let n0: u64 = s.base[0];
    let n1: u64 = if axis == 1 {
        m_eff
    } else {
        s.base[1]
    };
    let n2: u64 = if axis == 2 {
        m_eff
    } else {
        s.base[2]
    };
    let ne: [u64; 4] = [n0, n1, n2, s.base[3]];
    assert(ne@ =~= tap.wanted(m_tokens));
    if same_ne(row, ne) && text::same_str(row.ty.as_str(), "f32") && text::same_str(
        row.op.as_str(),
        tap.op,
    ) {
        Ok(())
    } else {
        Err(NotTheTap)
    }
}

/// Whether a row has these dims.
fn same_ne(row: &RefRow, ne: [u64; 4]) -> (r: bool)
    ensures
        r == (row.ne@ == ne@),
{
    let same: bool = row.ne[0] == ne[0] && row.ne[1] == ne[1] && row.ne[2] == ne[2] && row.ne[3]
        == ne[3];
    assert(same <==> row.ne@ =~= ne@);
    same
}

// ------------------------------------------------------------ comparing

/// Why a tap cannot be compared.
#[derive(Debug, Clone, Copy, PartialEq, Eq, Structural)]
pub enum CompareError {
    /// The manifest has no row of the tap.
    NoRow,
    /// The row is not the tap's.
    Row,
    /// The row's file does not read.
    File(FileError),
    /// The dump's values are not as many as the contract says.
    Values,
    /// The compared values are not as many as the dump's: a
    /// `last_token_only` tap is compared on the engine's last column only.
    Got,
}

/// What a tap is compared against, `raw` the file its logical read takes.
pub open spec fn reference(
    rows: Seq<RefRow>,
    tap: Tap,
    n_got: usize,
    m_tokens: usize,
    raw: Seq<u8>,
) -> Result<Seq<u32>, CompareError> {
    match first_row(rows, tap.kind.named(tap.layer), tap.occurrence, 0) {
        None => Err(CompareError::NoRow),
        Some(i) => if !row_is(rows[i], tap, m_tokens) {
            Err(CompareError::Row)
        } else {
            match logical_read(rows[i], raw) {
                Err(e) => Err(CompareError::File(e)),
                Ok(v) => if v.len() != product(tap.kind.dims()) * tap.tokens(m_tokens) {
                    Err(CompareError::Values)
                } else if n_got != v.len() {
                    Err(CompareError::Got)
                } else {
                    Ok(v)
                },
            }
        },
    }
}

/// The dump tensor of `tap`, from the bytes of the file its row's logical read
/// takes, to compare `n_got` values against. The compared values must be
/// exactly the compared span in the same logical order: for a
/// `last_token_only` tap that is the engine's last token column, which is what
/// the dump's single column holds. `m_tokens` is the prompt width the engine
/// ran.
pub fn compare_against(
    rows: &[RefRow],
    tap: &Tap,
    n_got: usize,
    m_tokens: usize,
    raw: &[u8],
) -> (r: Result<Vec<u32>, CompareError>)
    ensures
        match r {
            Ok(v) => reference(rows@, *tap, n_got, m_tokens, raw@) == Ok::<
                Seq<u32>,
                CompareError,
            >(v@),
            Err(e) => reference(rows@, *tap, n_got, m_tokens, raw@) == Err::<
                Seq<u32>,
                CompareError,
            >(e),
        },
{
    let name: String = tap.name();
    let row: &RefRow = match find_ref_row(rows, name.as_str(), tap.occurrence) {
        Ok(row) => row,
        Err(_) => {
            return Err(CompareError::NoRow);
        },
    };
    match check_row(row, tap, m_tokens) {
        Ok(_) => {},
        Err(_) => {
            return Err(CompareError::Row);
        },
    }
    let v: Vec<u32> = match files::ref_tensor_logical(row, raw) {
        Ok(v) => v,
        Err(e) => {
            return Err(CompareError::File(e));
        },
    };
    let per: u64 = tap.kind.per_token() as u64;
    let m_eff: u64 = if tap.last_token_only {
        1
    } else {
        m_tokens as u64
    };
    match per.checked_mul(m_eff) {
        None => {
            return Err(CompareError::Values);
        },
        Some(want) => {
            if v.len() as u64 != want {
                return Err(CompareError::Values);
            }
        },
    }
    if n_got != v.len() {
        return Err(CompareError::Got);
    }
    Ok(v)
}

/// One comparison's outcome. `rel` is the largest difference over the largest
/// reference magnitude; `worst_index` is the first flat index of the largest
/// difference inside the compared span; `n` is the span's length.
#[derive(Debug, Clone, Copy)]
pub struct TapResult {
    pub tap: Tap,
    pub rel: u32,
    pub worst_index: usize,
    pub n: usize,
}

/// The first of the largest values among the first `n`, and its index: nothing
/// but a value above -1 is taken.
pub open spec fn worst_of(diffs: Seq<u32>, n: int) -> (int, u32)
    decreases n,
{
    if n <= 0 {
        (0, 0xbf80_0000)
    } else {
        let before = worst_of(diffs, n - 1);
        if bits::less(before.1, diffs[n - 1]) {
            (n - 1, diffs[n - 1])
        } else {
            before
        }
    }
}

impl TapResult {
    /// A comparison's outcome, from its relative error and the magnitudes of
    /// its differences.
    pub fn of(tap: &Tap, rel: u32, diffs: &[u32]) -> (r: TapResult)
        ensures
            r.tap == *tap,
            r.rel == rel,
            r.n == diffs@.len(),
            r.worst_index == worst_of(diffs@, diffs@.len() as int).0,
    {
        let mut worst_index: usize = 0;
        let mut worst: u32 = 0xbf80_0000;
        let mut i: usize = 0;
        while i < diffs.len()
            invariant
                i <= diffs@.len(),
                (worst_index as int, worst) == worst_of(diffs@, i as int),
            decreases diffs@.len() - i,
        {
            if bits::is_less(worst, diffs[i]) {
                worst = diffs[i];
                worst_index = i;
            }
            i += 1;
        }
        TapResult { tap: *tap, rel, worst_index, n: diffs.len() }
    }

    /// The worst index rendered as (token, offset within the token), the
    /// useful form when a span holds more than one token.
    pub fn worst(&self) -> (r: (usize, usize))
        ensures
            self.worst_index == r.0 * product(self.tap.kind.dims()) + r.1,
            r.1 < product(self.tap.kind.dims()),
    {
        let per: usize = self.tap.kind.per_token();
        proof {
            vstd::arithmetic::div_mod::lemma_fundamental_div_mod(
                self.worst_index as int,
                per as int,
            );
            vstd::arithmetic::mul::lemma_mul_is_commutative(
                per as int,
                self.worst_index as int / per as int,
            );
        }
        (self.worst_index / per, self.worst_index % per)
    }
}

/// No difference is larger than the worst one, and none before it is as large:
/// over magnitudes that are numbers.
pub proof fn law_worst_is_the_first_largest(diffs: Seq<u32>, n: int, i: int)
    requires
        0 < n <= diffs.len(),
        0 <= i < n,
        forall|k: int|
            0 <= k < n ==> !bits::nan(#[trigger] diffs[k]) && !bits::is_negative(diffs[k]),
    ensures
        ({
            let w = worst_of(diffs, n);
            &&& 0 <= w.0 < n
            &&& w.1 == diffs[w.0]
            &&& !bits::less(w.1, diffs[i])
            &&& i < w.0 ==> bits::less(diffs[i], w.1)
        }),
    decreases n,
{
    assert(!bits::nan(diffs[n - 1]) && !bits::is_negative(diffs[n - 1]));
    if n > 1 {
        if i < n - 1 {
            law_worst_is_the_first_largest(diffs, n - 1, i);
        } else {
            law_worst_is_the_first_largest(diffs, n - 1, 0);
        }
    }
}

// ------------------------------------------------------------ bands

/// One band: a tap kind at a layer may be this far off.
#[derive(Debug, Clone, Copy)]
pub struct Band {
    pub kind: TapKind,
    pub layer: usize,
    pub band: u32,
}

/// Block-layer band table: one band per (tap kind, layer), a later entry for
/// the same pair replacing an earlier one.
#[derive(Debug, Clone)]
pub struct Bands {
    pub table: Vec<Band>,
}

/// The last band of a pair among the first `n`.
pub open spec fn last_band(table: Seq<Band>, kind: TapKind, layer: usize, n: int) -> Option<u32>
    decreases n,
{
    if n <= 0 {
        None
    } else if table[n - 1].kind == kind && table[n - 1].layer == layer {
        Some(table[n - 1].band)
    } else {
        last_band(table, kind, layer, n - 1)
    }
}

/// A violation: the tap, its relative error and its band.
#[derive(Debug, Clone, Copy)]
pub struct Violation {
    pub tap: Tap,
    pub rel: u32,
    pub band: u32,
}

/// Every result that left its band, with the report's key property: the first
/// tap in forward order, so a divergence is attributed to the op that broke,
/// not to everything downstream of it.
#[derive(Debug, Clone)]
pub struct Violations {
    /// Per violating result, in the results' order.
    pub all: Vec<Violation>,
    /// The lowest (layer, forward rank) among them.
    pub first: Option<(TapKind, usize)>,
}

impl Bands {
    /// The band of a pair.
    pub open spec fn of(&self, kind: TapKind, layer: usize) -> Option<u32> {
        last_band(self.table@, kind, layer, self.table@.len() as int)
    }

    /// Bands pinned from a measured table.
    pub fn pinned(table: &[Band]) -> (r: Bands)
        ensures
            r.table@ == table@,
    {
        let mut t: Vec<Band> = Vec::new();
        let mut i: usize = 0;
        while i < table.len()
            invariant
                i <= table@.len(),
                t@ =~= table@.take(i as int),
            decreases table@.len() - i,
        {
            t.push(table[i]);
            i += 1;
        }
        assert(table@.take(table@.len() as int) =~= table@);
        Bands { table: t }
    }

    /// The band of a pair, if it has one.
    pub fn band(&self, kind: TapKind, layer: usize) -> (r: Option<u32>)
        ensures
            r == self.of(kind, layer),
    {
        let mut i: usize = self.table.len();
        while i > 0
            invariant
                i <= self.table@.len(),
                self.of(kind, layer) == last_band(self.table@, kind, layer, i as int),
            decreases i,
        {
            i -= 1;
            if self.table[i].kind == kind && self.table[i].layer == layer {
                return Some(self.table[i].band);
            }
        }
        None
    }

    /// A result left its band. One without a band did not: it was never
    /// measured into the table.
    pub open spec fn left(&self, r: TapResult) -> bool {
        match self.of(r.tap.kind, r.tap.layer) {
            Some(band) => bits::less(band, r.rel),
            None => false,
        }
    }

    /// The violations among the first `n` results.
    pub open spec fn violations(&self, results: Seq<TapResult>, n: int) -> Seq<Violation>
        decreases n,
    {
        if n <= 0 {
            seq![]
        } else {
            let before = self.violations(results, n - 1);
            let r = results[n - 1];
            if self.left(r) {
                before.push(
                    Violation {
                        tap: r.tap,
                        rel: r.rel,
                        band: self.of(r.tap.kind, r.tap.layer)->0,
                    },
                )
            } else {
                before
            }
        }
    }

    /// The violating result that comes first in forward order, among the first
    /// `n`: the earlier listed where two share a place.
    pub open spec fn first_left(&self, results: Seq<TapResult>, n: int) -> Option<int>
        decreases n,
    {
        if n <= 0 {
            None
        } else {
            let before = self.first_left(results, n - 1);
            if self.left(results[n - 1]) && (before is None || results[n - 1].tap.before(
                results[before->0].tap,
            )) {
                Some(n - 1)
            } else {
                before
            }
        }
    }

    /// Every violation, plus the first in forward order.
    pub fn check(&self, results: &[TapResult]) -> (r: Violations)
        ensures
            r.all@ == self.violations(results@, results@.len() as int),
            r.first == (match self.first_left(results@, results@.len() as int) {
                Some(i) => Some((results@[i].tap.kind, results@[i].tap.layer)),
                None => None,
            }),
    {
        let mut all: Vec<Violation> = Vec::new();
        let mut first: Option<usize> = None;
        let mut i: usize = 0;
        while i < results.len()
            invariant
                i <= results@.len(),
                all@ == self.violations(results@, i as int),
                match first {
                    Some(j) => j < i && self.first_left(results@, i as int) == Some(j as int),
                    None => self.first_left(results@, i as int) is None,
                },
            decreases results@.len() - i,
        {
            let r: &TapResult = &results[i];
            match self.band(r.tap.kind, r.tap.layer) {
                None => {},
                Some(band) => {
                    if bits::is_less(band, r.rel) {
                        all.push(Violation { tap: r.tap, rel: r.rel, band });
                        let earlier: bool = match first {
                            None => true,
                            Some(j) => {
                                let a: (usize, usize) = r.tap.order_key();
                                let b: (usize, usize) = results[j].tap.order_key();
                                a.0 < b.0 || (a.0 == b.0 && a.1 < b.1)
                            },
                        };
                        if earlier {
                            first = Some(i);
                        }
                    }
                },
            }
            i += 1;
        }
        let first: Option<(TapKind, usize)> = match first {
            Some(j) => Some((results[j].tap.kind, results[j].tap.layer)),
            None => None,
        };
        Violations { all, first }
    }

    /// [`check`](Self::check) as a Result: `Err` carries the full violation
    /// list and names the first tap in forward order.
    pub fn assert_within(&self, results: &[TapResult]) -> (r: Result<(), Violations>)
        ensures
            r is Ok <==> self.violations(results@, results@.len() as int).len() == 0,
            r matches Err(v) ==> v.all@ == self.violations(results@, results@.len() as int)
                && v.first == (match self.first_left(results@, results@.len() as int) {
                Some(i) => Some((results@[i].tap.kind, results@[i].tap.layer)),
                None => None,
            }),
    {
        let v: Violations = self.check(results);
        if v.all.len() == 0 {
            Ok(())
        } else {
            Err(v)
        }
    }

    /// The verdict column of a comparison table.
    pub fn verdict(&self, r: &TapResult) -> (s: &'static str)
        ensures
            s@ == (match self.of(r.tap.kind, r.tap.layer) {
                Some(band) => if !bits::nan(r.rel) && !bits::nan(band) && !bits::less(
                    band,
                    r.rel,
                ) {
                    "ok"@
                } else {
                    "VIOLATION"@
                },
                None => "NO BAND"@,
            }),
    {
        match self.band(r.tap.kind, r.tap.layer) {
            Some(band) => if !bits::is_nan(r.rel) && !bits::is_nan(band) && !bits::is_less(
                band,
                r.rel,
            ) {
                "ok"
            } else {
                "VIOLATION"
            },
            None => "NO BAND",
        }
    }
}

impl Violations {
    /// The line that names the first divergence.
    pub open spec fn named_first(&self) -> Seq<char> {
        match self.first {
            Some((kind, layer)) => "first divergence in forward order: L"@ + decimal(layer as nat)
                + seq![' '] + kind.named(layer),
            None => "no violations"@,
        }
    }

    /// The line that names the first divergence.
    pub fn first_line(&self) -> (r: String)
        ensures
            r@ == self.named_first(),
    {
        let mut out: Vec<char> = Vec::new();
        match self.first {
            Some((kind, layer)) => {
                text::push_str(&mut out, "first divergence in forward order: L");
                text::push_decimal(&mut out, layer as u64);
                out.push(' ');
                text::push_str(&mut out, kind.tensor_name(layer).as_str());
            },
            None => {
                text::push_str(&mut out, "no violations");
            },
        }
        assert(out@ =~= self.named_first());
        text::string_of(out.as_slice())
    }
}

/// The tap that is named first left its band, and no violating tap stands
/// before it in forward order.
pub proof fn law_the_first_divergence_is_first(
    bands: Bands,
    results: Seq<TapResult>,
    n: int,
    i: int,
)
    requires
        0 <= i < n <= results.len(),
        bands.left(results[i]),
    ensures
        bands.first_left(results, n) matches Some(f) && 0 <= f < n && bands.left(results[f])
            && !results[i].tap.before(results[f].tap),
    decreases n,
{
    if i < n - 1 {
        law_the_first_divergence_is_first(bands, results, n - 1, i);
    } else {
        lemma_first_left(bands, results, n - 1);
    }
}

proof fn lemma_first_left(bands: Bands, results: Seq<TapResult>, n: int)
    requires
        0 <= n <= results.len(),
    ensures
        bands.first_left(results, n) matches Some(f) ==> 0 <= f < n && bands.left(results[f]),
    decreases n,
{
    if n > 0 {
        lemma_first_left(bands, results, n - 1);
    }
}

/// There is a first divergence exactly where there is a violation.
pub proof fn law_a_violation_has_a_first(bands: Bands, results: Seq<TapResult>, n: int)
    requires
        0 <= n <= results.len(),
    ensures
        bands.first_left(results, n) is None <==> bands.violations(results, n).len() == 0,
    decreases n,
{
    if n > 0 {
        law_a_violation_has_a_first(bands, results, n - 1);
    }
}

// ------------------------------------------------------------ views

/// The tensors whose views the block chain reads through.
#[derive(Debug, Clone, Copy, PartialEq, Eq, Structural)]
pub enum Viewed {
    KvRopeCompressed,
    KvCompressed,
    KRope,
    Q,
    QRope,
}

/// Why a view is not the slice of its base.
#[derive(Debug, Clone, Copy, PartialEq, Eq, Structural)]
pub enum ViewError {
    /// The manifest has no such row.
    NoRow(Viewed),
    /// The row is not of the type, op or dims.
    Row(Viewed),
    /// A file of the row does not read.
    File(Viewed, FileError),
    /// The logical value at this index is not the base's.
    Value(Viewed, usize),
    /// The plain file is not the base's flat memory.
    Flat(Viewed),
}

/// The files the check reads, by the row they belong to: the one a logical
/// read takes and, of a view, the plain one.
#[derive(Debug, Clone, Copy)]
pub struct ViewFiles<'a> {
    pub kv_rope_compressed: &'a [u8],
    pub kv_compressed: &'a [u8],
    pub kv_compressed_plain: &'a [u8],
    pub k_rope: &'a [u8],
    pub k_rope_plain: &'a [u8],
    pub q: &'a [u8],
    pub q_rope: &'a [u8],
    pub q_rope_plain: &'a [u8],
}

/// The base of views: an f32 MUL_MAT of `width` values per token.
pub open spec fn base_values(
    rows: Seq<RefRow>,
    of: Viewed,
    name: Seq<char>,
    width: u64,
    m: usize,
    raw: Seq<u8>,
) -> Result<Seq<u32>, ViewError> {
    match first_row(rows, name, 0, 0) {
        None => Err(ViewError::NoRow(of)),
        Some(i) => if rows[i].ty@ != "f32"@ || rows[i].op@ != "MUL_MAT"@ || rows[i].ne@ != seq![
            width,
            m as u64,
            1,
            1,
        ] {
            Err(ViewError::Row(of))
        } else {
            match logical_read(rows[i], raw) {
                Err(e) => Err(ViewError::File(of, e)),
                Ok(v) => Ok(v),
            }
        },
    }
}

/// Where element `i` of a view stands in its base: a slice of `width` values
/// from `off` on, of each base row of `stride` values.
pub open spec fn slice_index(i: int, width: int, stride: int, off: int) -> int {
    (i / width) * stride + off + i % width
}

/// The first element from `at` on that is not the base's.
pub open spec fn first_off(
    view: Seq<u32>,
    base: Seq<u32>,
    width: int,
    stride: int,
    off: int,
    at: int,
) -> Option<int>
    decreases view.len() - at,
{
    if at < 0 || at >= view.len() {
        None
    } else if view[at] != base[slice_index(at, width, stride, off)] {
        Some(at)
    } else {
        first_off(view, base, width, stride, off, at + 1)
    }
}

/// What the check of one view gives.
pub open spec fn view_verdict(
    rows: Seq<RefRow>,
    of: Viewed,
    name: Seq<char>,
    ne: Seq<u64>,
    base: Seq<u32>,
    stride: int,
    off: int,
    raw: Seq<u8>,
    plain: Seq<u8>,
) -> Result<(), ViewError> {
    match first_row(rows, name, 0, 0) {
        None => Err(ViewError::NoRow(of)),
        Some(i) => if rows[i].op@ != "VIEW"@ || rows[i].ne@ != ne {
            Err(ViewError::Row(of))
        } else {
            match logical_read(rows[i], raw) {
                Err(e) => Err(ViewError::File(of, e)),
                Ok(v) => match first_off(v, base, ne[0] as int, stride, off, 0) {
                    Some(k) => Err(ViewError::Value(of, k as usize)),
                    None => match plain_read(rows[i], plain) {
                        Err(e) => Err(ViewError::File(of, e)),
                        Ok(p) => if off + p.len() <= base.len() && base.subrange(
                            off,
                            off + p.len(),
                        ) == p {
                            Ok(())
                        } else {
                            Err(ViewError::Flat(of))
                        },
                    },
                },
            }
        },
    }
}

/// What the check of a layer's views gives.
pub open spec fn views_verdict(
    rows: Seq<RefRow>,
    layer: usize,
    m: usize,
    f: ViewFiles<'_>,
) -> Result<(), ViewError> {
    match base_values(
        rows,
        Viewed::KvRopeCompressed,
        layered("kv_rope_compressed"@, layer),
        KV_WIDTH,
        m,
        f.kv_rope_compressed@,
    ) {
        Err(e) => Err(e),
        Ok(krc) => match view_verdict(
            rows,
            Viewed::KvCompressed,
            layered("kv_compressed"@, layer),
            seq![LATENT, m as u64, 1, 1],
            krc,
            KV_WIDTH as int,
            0,
            f.kv_compressed@,
            f.kv_compressed_plain@,
        ) {
            Err(e) => Err(e),
            Ok(_) => match view_verdict(
                rows,
                Viewed::KRope,
                layered("k_rope"@, layer),
                seq![ROPE, 1, m as u64, 1],
                krc,
                KV_WIDTH as int,
                LATENT as int,
                f.k_rope@,
                f.k_rope_plain@,
            ) {
                Err(e) => Err(e),
                Ok(_) => match base_values(
                    rows,
                    Viewed::Q,
                    layered("q"@, layer),
                    Q_ROWS,
                    m,
                    f.q@,
                ) {
                    Err(e) => Err(e),
                    Ok(q) => view_verdict(
                        rows,
                        Viewed::QRope,
                        layered("q_rope"@, layer),
                        seq![ROPE, N_HEADS, m as u64, 1],
                        q,
                        KQ_HEAD as int,
                        NOPE as int,
                        f.q_rope@,
                        f.q_rope_plain@,
                    ),
                },
            },
        },
    }
}

proof fn lemma_read_len(row: RefRow, raw: Seq<u8>)
    ensures
        logical_read(row, raw) matches Ok(v) ==> v.len() == product(row.ne@),
        plain_read(row, raw) matches Ok(v) ==> v.len() == product(row.ne@),
{
}

/// Reads the base of views.
fn read_base(
    rows: &[RefRow],
    of: Viewed,
    name: &str,
    width: u64,
    m: usize,
    raw: &[u8],
) -> (r: Result<Vec<u32>, ViewError>)
    ensures
        match r {
            Ok(v) => base_values(rows@, of, name@, width, m, raw@) == Ok::<
                Seq<u32>,
                ViewError,
            >(v@) && v@.len() == width * m,
            Err(e) => base_values(rows@, of, name@, width, m, raw@) == Err::<
                Seq<u32>,
                ViewError,
            >(e),
        },
{
    let row: &RefRow = match find_ref_row(rows, name, 0) {
        Ok(row) => row,
        Err(_) => {
            return Err(ViewError::NoRow(of));
        },
    };
    let ne: [u64; 4] = [width, m as u64, 1, 1];
    assert(ne@ =~= seq![width, m as u64, 1, 1]);
    if !text::same_str(row.ty.as_str(), "f32") || !text::same_str(row.op.as_str(), "MUL_MAT")
        || !same_ne(row, ne) {
        return Err(ViewError::Row(of));
    }
    match files::ref_tensor_logical(row, raw) {
        Ok(v) => {
            proof {
                lemma_read_len(*row, raw@);
                let w = width as int;
                let t = m as int;
                assert(w * t * 1 * 1 == w * t) by (nonlinear_arith);
            }
            Ok(v)
        },
        Err(e) => Err(ViewError::File(of, e)),
    }
}

/// Element `i` of a view of `n` slices stands inside its base.
proof fn lemma_slice_inside(i: int, width: int, stride: int, off: int, n: int)
    requires
        0 <= i < width * n,
        0 < width,
        0 <= off,
        off + width <= stride,
        0 <= n,
    ensures
        0 <= (i / width) * stride,
        0 <= slice_index(i, width, stride, off) < stride * n,
        0 <= i % width < width,
{
    vstd::arithmetic::div_mod::lemma_fundamental_div_mod(i, width);
    let q = i / width;
    let r = i % width;
    assert(0 <= r < width) by (nonlinear_arith)
        requires
            r == i % width,
            0 < width,
    ;
    assert(0 <= q) by (nonlinear_arith)
        requires
            q == i / width,
            0 <= i,
            0 < width,
    ;
    assert(q < n) by (nonlinear_arith)
        requires
            i == width * q + r,
            0 <= r,
            i < width * n,
            0 < width,
    ;
    assert(q * stride + stride <= stride * n) by (nonlinear_arith)
        requires
            q + 1 <= n,
            0 < stride,
    ;
    assert(0 <= q * stride) by (nonlinear_arith)
        requires
            0 <= q,
            0 < stride,
    ;
}

/// Checks one view of `n` slices.
#[verifier::rlimit(30)]
fn check_view(
    rows: &[RefRow],
    of: Viewed,
    name: &str,
    ne: [u64; 4],
    n: usize,
    base: &Vec<u32>,
    stride: usize,
    off: usize,
    raw: &[u8],
    plain: &[u8],
) -> (r: Result<(), ViewError>)
    requires
        0 < ne@[0],
        off + ne@[0] <= stride,
        product(ne@) == ne@[0] * n,
        base@.len() == stride * n,
    ensures
        r == view_verdict(
            rows@,
            of,
            name@,
            ne@,
            base@,
            stride as int,
            off as int,
            raw@,
            plain@,
        ),
{
    let width: usize = ne[0] as usize;
    let row: &RefRow = match find_ref_row(rows, name, 0) {
        Ok(row) => row,
        Err(_) => {
            return Err(ViewError::NoRow(of));
        },
    };
    if !text::same_str(row.op.as_str(), "VIEW") || !same_ne(row, ne) {
        return Err(ViewError::Row(of));
    }
    let v: Vec<u32> = match files::ref_tensor_logical(row, raw) {
        Ok(v) => v,
        Err(e) => {
            return Err(ViewError::File(of, e));
        },
    };
    proof {
        lemma_read_len(*row, raw@);
        assert(v@.len() == width * n);
    }
    let n_base: usize = base.len();
    let mut i: usize = 0;
    while i < v.len()
        invariant
            i <= v@.len(),
            v@.len() == width * n,
            n_base == base@.len(),
            0 < width,
            off + width <= stride,
            base@.len() == stride * n,
            first_off(v@, base@, width as int, stride as int, off as int, 0) == first_off(
                v@,
                base@,
                width as int,
                stride as int,
                off as int,
                i as int,
            ),
            width == ne@[0],
            first_row(rows@, name@, 0, 0) matches Some(k) && *row == rows@[k],
            row.op@ == "VIEW"@ && row.ne@ == ne@,
            logical_read(*row, raw@) == Ok::<Seq<u32>, FileError>(v@),
        decreases v@.len() - i,
    {
        proof {
            lemma_slice_inside(i as int, width as int, stride as int, off as int, n as int);
        }
        let at: usize = (i / width) * stride + off + i % width;
        assert(at == slice_index(i as int, width as int, stride as int, off as int));
        if v[i] != base[at] {
            return Err(ViewError::Value(of, i));
        }
        i += 1;
    }
    let p: Vec<u32> = match files::ref_tensor_of(row, plain) {
        Ok(p) => p,
        Err(e) => {
            return Err(ViewError::File(of, e));
        },
    };
    match bits::view_flat(p.as_slice(), base.as_slice(), off) {
        Ok(_) => Ok(()),
        Err(_) => Err(ViewError::Flat(of)),
    }
}

/// Proves the dumper's logical twins for the three VIEW families the block
/// chain reads through, against their base MUL_MAT tensors, so the block layer
/// never re-derives them: `kv_compressed-L/0` is the latent head of each
/// `kv_rope_compressed-L` row, `k_rope-L/0` the rope tail, `q_rope-L/0` per
/// (token, head) the rope slice of `q-L`. Also proves that the plain files
/// hold the flat base memory, which [`bits::view_flat`]'s users stand on.
pub fn check_logical_views(
    rows: &[RefRow],
    layer: usize,
    m_tokens: usize,
    files: &ViewFiles<'_>,
) -> (r: Result<(), ViewError>)
    ensures
        r == views_verdict(rows@, layer, m_tokens, *files),
{
    let m: u64 = m_tokens as u64;
    let krc: Vec<u32> = read_base(
        rows,
        Viewed::KvRopeCompressed,
        at_layer("kv_rope_compressed", layer).as_str(),
        KV_WIDTH,
        m_tokens,
        files.kv_rope_compressed,
    )?;
    let latent: [u64; 4] = [LATENT, m, 1, 1];
    assert(latent@ =~= seq![LATENT, m, 1, 1]);
    check_view(
        rows,
        Viewed::KvCompressed,
        at_layer("kv_compressed", layer).as_str(),
        latent,
        m_tokens,
        &krc,
        KV_WIDTH as usize,
        0,
        files.kv_compressed,
        files.kv_compressed_plain,
    )?;
    let tail: [u64; 4] = [ROPE, 1, m, 1];
    assert(tail@ =~= seq![ROPE, 1, m, 1]);
    check_view(
        rows,
        Viewed::KRope,
        at_layer("k_rope", layer).as_str(),
        tail,
        m_tokens,
        &krc,
        KV_WIDTH as usize,
        LATENT as usize,
        files.k_rope,
        files.k_rope_plain,
    )?;
    let q: Vec<u32> = read_base(
        rows,
        Viewed::Q,
        at_layer("q", layer).as_str(),
        Q_ROWS,
        m_tokens,
        files.q,
    )?;
    let heads: [u64; 4] = [ROPE, N_HEADS, m, 1];
    assert(heads@ =~= seq![ROPE, N_HEADS, m, 1]);
    let len: usize = q.len();
    let n_heads: usize = len / KQ_HEAD as usize;
    assert(n_heads == 16 * m_tokens);
    check_view(
        rows,
        Viewed::QRope,
        at_layer("q_rope", layer).as_str(),
        heads,
        n_heads,
        &q,
        KQ_HEAD as usize,
        NOPE as usize,
        files.q_rope,
        files.q_rope_plain,
    )
}

/// A checked layer's views are the slices of their bases: element `i` of the
/// latent view is the base's, and the same holds of the two rope views.
pub proof fn law_a_checked_view_is_its_slice(
    view: Seq<u32>,
    base: Seq<u32>,
    width: int,
    stride: int,
    off: int,
    at: int,
    i: int,
)
    requires
        first_off(view, base, width, stride, off, at) is None,
        0 <= at <= i < view.len(),
    ensures
        view[i] == base[slice_index(i, width, stride, off)],
    decreases i - at,
{
    if at < i {
        law_a_checked_view_is_its_slice(view, base, width, stride, off, at + 1, i);
    }
}

// ------------------------------------------------------------ what a block's taps want

/// In the last block the attention's eight taps hold every token and the eight
/// from `ffn_inp` on the last token alone; in the head both do; in every other
/// block none does. So the row a tap of the last token is held to has one token
/// whatever the prompt's length, and any other tap's has the prompt's.
pub proof fn law_the_last_token_taps(
    list: Seq<Tap>,
    block: BlockKind,
    layer: usize,
    i: int,
    row: RefRow,
    m_tokens: usize,
)
    requires
        is_tap_list(list, block, layer),
        0 <= i < list.len(),
    ensures
        list[i].last_token_only == ((block == BlockKind::Head) || (block == BlockKind::Last && (
        list[i].kind == TapKind::FfnInp || list[i].kind == TapKind::FfnNorm || list[i].kind
            == TapKind::FfnMoeLogits || list[i].kind == TapKind::FfnMoeWeights || list[i].kind
            == TapKind::FfnMoeOut || list[i].kind == TapKind::FfnShexp || list[i].kind
            == TapKind::FfnOut || list[i].kind == TapKind::LOut))),
        block == BlockKind::Last ==> list[i].last_token_only == (i >= 8),
        row_is(row, list[i], m_tokens) && list[i].last_token_only ==> row.ne[list[i].kind.axis()]
            == 1 && row_is(row, list[i], 1),
        row_is(row, list[i], m_tokens) && !list[i].last_token_only ==> row.ne[list[i].kind.axis()]
            == m_tokens,
{
    let t = list[i];
    assert(t.is_at(
        kinds(block)[i],
        layer,
        block_op(block, kinds(block)[i]),
        block_narrow(block, kinds(block)[i]),
    ));
    lemma_token_dims(t.kind);
    assert(t.wanted(m_tokens)[t.kind.axis()] == t.tokens(m_tokens));
    if t.last_token_only {
        assert(t.wanted(m_tokens) == t.wanted(1));
    }
}

/// The attention's widths are made of their parts: a query head of its unrotated
/// and its rotated part, the query of its heads, and the compressed row of the
/// latent and the rotated key. A tap's row has the width and the heads of what it
/// holds, its tokens on the axis behind them.
pub proof fn law_a_taps_row_is_its_shape(kind: TapKind, layer: usize, m: usize, ne: Seq<u64>)
    requires
        ne == (Tap {
            kind,
            layer,
            occurrence: 0,
            op: "",
            last_token_only: false,
        }).wanted(m),
    ensures
        HIDDEN == 2048 && LATENT == 512 && ROPE == 64 && N_HEADS == 16 && N_USED == 6,
        KQ_HEAD == NOPE + ROPE && Q_ROWS == N_HEADS * KQ_HEAD && KV_WIDTH == LATENT + ROPE,
        kind == TapKind::Q ==> ne == seq![3072u64, m as u64, 1, 1],
        kind == TapKind::KvRopeCompressed ==> ne == seq![576u64, m as u64, 1, 1],
        kind == TapKind::QRope ==> ne == seq![64u64, 16, m as u64, 1],
        kind == TapKind::KRope ==> ne == seq![64u64, 1, m as u64, 1],
        kind == TapKind::KvCompressed ==> ne == seq![512u64, m as u64, 1, 1],
        kind == TapKind::KqvCompressed ==> ne == seq![512u64, 16, m as u64, 1],
        kind == TapKind::FfnMoeLogits ==> ne == seq![64u64, m as u64, 1, 1],
        kind == TapKind::FfnMoeWeights ==> ne == seq![1u64, 6, m as u64, 1],
        kind == TapKind::ResultOutput ==> ne == seq![102400u64, m as u64, 1, 1],
        kind == TapKind::AttnNorm || kind == TapKind::KqvOut || kind == TapKind::FfnInp || kind
            == TapKind::FfnNorm || kind == TapKind::FfnMoeOut || kind == TapKind::FfnShexp || kind
            == TapKind::FfnOut || kind == TapKind::LOut || kind == TapKind::ResultNorm ==> ne
            == seq![2048u64, m as u64, 1, 1],
        product(ne) == product(kind.dims()) * m,
{
    lemma_token_dims(kind);
    let d = kind.dims();
    if kind.axis() == 1 {
        assert(ne =~= seq![d[0], m as u64, 1, 1]);
    } else {
        assert(ne =~= seq![d[0], d[1], m as u64, 1]);
    }
    let (a, b, c) = (d[0] as int, d[1] as int, m as int);
    assert(a * c * 1 * 1 == (a * 1) * c && a * b * c * 1 == (a * b) * c) by (nonlinear_arith);
}

/// A tap is named by its kind and its layer, the head's by its kind alone; the
/// turned and the normed parts of a view are the second of their name.
pub proof fn law_a_tap_is_named_by_kind_and_layer(layer: usize, kind: TapKind)
    ensures
        TapKind::LOut.named(layer) == "l_out"@ + seq!['-'] + decimal(layer as nat),
        TapKind::FfnInp.named(layer) == "ffn_inp"@ + seq!['-'] + decimal(layer as nat),
        TapKind::Q.named(layer) == "q"@ + seq!['-'] + decimal(layer as nat),
        TapKind::ResultNorm.named(layer) == "result_norm"@,
        TapKind::ResultOutput.named(layer) == "result_output"@,
        (kind.nth() == 1) == (kind == TapKind::QRope || kind == TapKind::KRope || kind
            == TapKind::KvCompressed),
        kind.nth() <= 1,
{
}

/// What produces a tap: its norm, its product, its turn or its sum. The dense
/// block's `ffn_out` is its down projection, every other block's the sum of the
/// routed and the shared expert.
pub proof fn law_a_tap_is_produced_by_its_op(list: Seq<Tap>, block: BlockKind, layer: usize, i: int)
    requires
        is_tap_list(list, block, layer),
        0 <= i < list.len(),
    ensures
        list[i].layer == layer,
        list[i].kind == TapKind::FfnOut ==> list[i].op@ == (if block == BlockKind::Dense0 {
            "MUL_MAT"@
        } else {
            "ADD"@
        }),
        list[i].kind == TapKind::LOut || list[i].kind == TapKind::FfnInp ==> list[i].op@ == "ADD"@,
        list[i].kind == TapKind::Q || list[i].kind == TapKind::KqvOut || list[i].kind
            == TapKind::ResultOutput || list[i].kind == TapKind::FfnMoeLogits || list[i].kind
            == TapKind::FfnShexp || list[i].kind == TapKind::KvRopeCompressed ==> list[i].op@
            == "MUL_MAT"@,
        list[i].kind == TapKind::QRope || list[i].kind == TapKind::KRope ==> list[i].op@ == "ROPE"@,
        list[i].kind == TapKind::KqvCompressed ==> list[i].op@ == "FLASH_ATTN_EXT"@,
        list[i].kind == TapKind::FfnMoeOut ==> list[i].op@ == "MUL_MULTI_ADD"@,
        list[i].kind == TapKind::FfnMoeWeights ==> list[i].op@ == "GET_ROWS"@,
        list[i].kind == TapKind::AttnNorm || list[i].kind == TapKind::FfnNorm || list[i].kind
            == TapKind::KvCompressed || list[i].kind == TapKind::ResultNorm ==> list[i].op@
            == "FUSED_RMS_NORM"@,
        list[i].occurrence == list[i].kind.nth(),
        block == BlockKind::Head ==> list.len() == 2,
        block == BlockKind::Dense0 ==> list.len() == 12 && list[i].kind != TapKind::FfnMoeOut
            && list[i].kind != TapKind::FfnShexp,
        block == BlockKind::Moe || block == BlockKind::Last ==> list.len() == 16,
{
    assert(list[i].is_at(
        kinds(block)[i],
        layer,
        block_op(block, kinds(block)[i]),
        block_narrow(block, kinds(block)[i]),
    ));
}

/// What a tap is compared with is its row's values, as many as the compared tokens
/// have, and ours must be as many.
pub proof fn law_a_tap_is_compared_with_its_row(
    rows: Seq<RefRow>,
    tap: Tap,
    n_got: usize,
    m: usize,
    raw: Seq<u8>,
    v: Seq<u32>,
)
    requires
        reference(rows, tap, n_got, m, raw) == Ok::<Seq<u32>, CompareError>(v),
    ensures
        exists|i: int|
            0 <= i < rows.len() && (#[trigger] rows[i]).name@ == tap.kind.named(tap.layer)
                && rows[i].occurrence == tap.occurrence && rows[i].ty@ == "f32"@ && rows[i].op@
                == tap.op@ && logical_read(rows[i], raw) == Ok::<Seq<u32>, FileError>(v),
        v.len() == n_got,
        v.len() == product(tap.kind.dims()) * (if tap.last_token_only {
            1
        } else {
            m as int
        }),
{
    let name = tap.kind.named(tap.layer);
    let i = first_row(rows, name, tap.occurrence, 0)->0;
    if rows.len() > 0 {
        crate::set::law_a_row_is_found_by_name_and_occurrence(rows, name, tap.occurrence, 0, 0);
    }
    assert(0 <= i < rows.len() && rows[i].name@ == name);
}

/// A result leaves its band exactly where its distance is above it, by the last
/// band the table gives the tap; a tap without one is never judged to leave it.
/// Every result that left is listed, in order.
pub proof fn law_what_left_its_band(bands: Bands, results: Seq<TapResult>, n: int, r: TapResult)
    requires
        0 < n <= results.len(),
        r == results[n - 1],
    ensures
        ({
            let before = bands.violations(results, n - 1);
            let after = bands.violations(results, n);
            match bands.of(r.tap.kind, r.tap.layer) {
                None => after == before,
                Some(band) => if bits::less(band, r.rel) {
                    after == before.push(Violation { tap: r.tap, rel: r.rel, band })
                } else {
                    after == before
                },
            }
        }),
        bands.violations(results, 0).len() == 0,
{
}

/// The last band a table gives a tap counts.
pub proof fn law_the_last_band_counts(table: Seq<Band>, b: Band, kind: TapKind, layer: usize)
    ensures
        last_band(table.push(b), b.kind, b.layer, table.len() as int + 1) == Some(b.band),
        kind != b.kind || layer != b.layer ==> last_band(
            table.push(b),
            kind,
            layer,
            table.len() as int + 1,
        ) == last_band(table, kind, layer, table.len() as int),
        last_band(table, kind, layer, 0) is None,
{
    lemma_bands_before(table, b, kind, layer, table.len() as int);
}

proof fn lemma_bands_before(table: Seq<Band>, b: Band, kind: TapKind, layer: usize, n: int)
    requires
        0 <= n <= table.len(),
    ensures
        last_band(table.push(b), kind, layer, n) == last_band(table, kind, layer, n),
    decreases n,
{
    if n > 0 {
        assert(table.push(b)[n - 1] == table[n - 1]);
        lemma_bands_before(table, b, kind, layer, n - 1);
    }
}

/// The logical views are slices of their products: the latent is the first 512
/// values of each compressed row, the rotated key the 64 behind them, and a head's
/// rotated query the last 64 of its 192.
pub proof fn law_the_views_are_slices(t: int, h: int, d: int)
    requires
        0 <= t,
        0 <= h < 16,
        0 <= d < 64,
    ensures
        slice_index(512 * t + d, LATENT as int, KV_WIDTH as int, 0) == 576 * t + d,
        slice_index(64 * t + d, ROPE as int, KV_WIDTH as int, LATENT as int) == 576 * t + 512 + d,
        slice_index(64 * (16 * t + h) + d, ROPE as int, KQ_HEAD as int, NOPE as int) == 3072 * t
            + 192 * h + 128 + d,
{
    assert((512 * t + d) / 512 == t && (512 * t + d) % 512 == d);
    assert((64 * t + d) / 64 == t && (64 * t + d) % 64 == d);
    let u = 16 * t + h;
    assert((64 * u + d) / 64 == u && (64 * u + d) % 64 == d);
}

/// The names of a layer's taps are their stems and the layer.
pub proof fn law_a_layers_taps_are_named(layer: usize, l: Seq<char>)
    requires
        l == decimal(layer as nat),
    ensures
        TapKind::AttnNorm.named(layer) == "attn_norm"@ + seq!['-'] + l,
        TapKind::KvRopeCompressed.named(layer) == "kv_rope_compressed"@ + seq!['-'] + l,
        TapKind::QRope.named(layer) == "q_rope"@ + seq!['-'] + l,
        TapKind::KRope.named(layer) == "k_rope"@ + seq!['-'] + l,
        TapKind::KvCompressed.named(layer) == "kv_compressed"@ + seq!['-'] + l,
        TapKind::KqvCompressed.named(layer) == "kqv_compressed"@ + seq!['-'] + l,
        TapKind::KqvOut.named(layer) == "kqv_out"@ + seq!['-'] + l,
        TapKind::FfnNorm.named(layer) == "ffn_norm"@ + seq!['-'] + l,
        TapKind::FfnMoeLogits.named(layer) == "ffn_moe_logits"@ + seq!['-'] + l,
        TapKind::FfnMoeWeights.named(layer) == "ffn_moe_weights"@ + seq!['-'] + l,
        TapKind::FfnMoeOut.named(layer) == "ffn_moe_out"@ + seq!['-'] + l,
        TapKind::FfnShexp.named(layer) == "ffn_shexp"@ + seq!['-'] + l,
        TapKind::FfnOut.named(layer) == "ffn_out"@ + seq!['-'] + l,
{
}

/// The taps come in the order of the forward pass: the attention's norm and its
/// projections, the rotated and compressed parts, its output and the residual, the
/// second norm, the router, the experts, the layer's output, and the head last.
pub proof fn law_the_taps_follow_the_pass()
    ensures
        TapKind::AttnNorm.rank() < TapKind::Q.rank(),
        TapKind::Q.rank() < TapKind::KvRopeCompressed.rank(),
        TapKind::KvRopeCompressed.rank() < TapKind::QRope.rank(),
        TapKind::QRope.rank() < TapKind::KRope.rank(),
        TapKind::KRope.rank() < TapKind::KvCompressed.rank(),
        TapKind::KvCompressed.rank() < TapKind::KqvCompressed.rank(),
        TapKind::KqvCompressed.rank() < TapKind::KqvOut.rank(),
        TapKind::KqvOut.rank() < TapKind::FfnInp.rank(),
        TapKind::FfnInp.rank() < TapKind::FfnNorm.rank(),
        TapKind::FfnNorm.rank() < TapKind::FfnMoeLogits.rank(),
        TapKind::FfnMoeLogits.rank() < TapKind::FfnMoeWeights.rank(),
        TapKind::FfnMoeWeights.rank() < TapKind::FfnMoeOut.rank(),
        TapKind::FfnMoeOut.rank() < TapKind::FfnShexp.rank(),
        TapKind::FfnShexp.rank() < TapKind::FfnOut.rank(),
        TapKind::FfnOut.rank() < TapKind::LOut.rank(),
        TapKind::LOut.rank() < TapKind::ResultNorm.rank(),
        TapKind::ResultNorm.rank() < TapKind::ResultOutput.rank(),
{
}

/// A block's kinds: the dense one has neither a router nor experts, the others
/// both, every layer the attention's and both ends, and the head only its own two.
pub proof fn law_a_blocks_kinds(block: BlockKind, kind: TapKind)
    ensures
        ({
            let head = kind == TapKind::ResultNorm || kind == TapKind::ResultOutput;
            let moe = kind == TapKind::FfnMoeLogits || kind == TapKind::FfnMoeWeights || kind
                == TapKind::FfnMoeOut || kind == TapKind::FfnShexp;
            &&& block == BlockKind::Head ==> kinds(block).contains(kind) == head
            &&& block == BlockKind::Dense0 ==> kinds(block).contains(kind) == (!head && !moe)
            &&& block == BlockKind::Moe || block == BlockKind::Last ==> kinds(block).contains(kind)
                == !head
        }),
{
    let k = kinds(block);
    if block == BlockKind::Head {
        assert(k[0] == TapKind::ResultNorm && k[1] == TapKind::ResultOutput);
    } else {
        assert(k[0] == TapKind::AttnNorm && k[1] == TapKind::Q && k[2] == TapKind::KvRopeCompressed);
        assert(k[3] == TapKind::QRope && k[4] == TapKind::KRope && k[5] == TapKind::KvCompressed);
        assert(k[6] == TapKind::KqvCompressed && k[7] == TapKind::KqvOut && k[8] == TapKind::FfnInp);
        assert(k[9] == TapKind::FfnNorm);
        if block == BlockKind::Dense0 {
            assert(k[10] == TapKind::FfnOut && k[11] == TapKind::LOut);
        } else {
            assert(k[10] == TapKind::FfnMoeLogits && k[11] == TapKind::FfnMoeWeights);
            assert(k[12] == TapKind::FfnMoeOut && k[13] == TapKind::FfnShexp);
            assert(k[14] == TapKind::FfnOut && k[15] == TapKind::LOut);
        }
    }
}

} // verus!
