//! The V4.1 model file's rope and norm constants, as the gates of the ops that
//! turn and normalize rows read them from its metadata; and the kernels the
//! step launches for a projection, as the file's tensor types decide them.
//! Singles come by their bits.
use crate::model_file::expect_arch;
use crate::model_file::GgmlType;
use crate::oracle::names;
use crate::oracle::Arch;
use crate::text;
use vstd::prelude::*;

verus! {

/// The metadata a file's ropes are read from, each value where the file has
/// it.
#[derive(Clone, Debug)]
pub struct RopeKeys {
    pub arch: Option<String>,
    /// `rope.scaling.type`.
    pub scaling: Option<String>,
    /// `rope.dimension_count`.
    pub n_dims: Option<u64>,
    /// `rope.scaling.original_context_length`.
    pub n_ctx_orig: Option<u64>,
    /// `attention.compress_ratios`, where it is an array: `None` for an
    /// element that is no unsigned number.
    pub ratios: Option<Vec<Option<u64>>>,
    /// `rope.freq_base`.
    pub freq_base: Option<u32>,
    /// `attention.compress_rope_freq_base`.
    pub compress_base: Option<u32>,
    /// `rope.scaling.factor`.
    pub factor: Option<u32>,
    /// `rope.scaling.yarn_beta_fast`.
    pub beta_fast: Option<u32>,
    /// `rope.scaling.yarn_beta_slow`.
    pub beta_slow: Option<u32>,
    /// `attention.layer_norm_rms_epsilon`.
    pub eps: Option<u32>,
    /// `attention.sliding_window`.
    pub ring: Option<u64>,
}

/// A metadata key of the ropes.
#[derive(Clone, Copy, Debug, PartialEq, Eq, Structural)]
pub enum RopeKey {
    NDims,
    NCtxOrig,
    FreqBase,
    CompressBase,
    Factor,
    BetaFast,
    BetaSlow,
    Eps,
    Ring,
}

/// Why a file has no ropes.
#[derive(Clone, Copy, Debug, PartialEq, Eq, Structural)]
pub enum RopeError {
    /// The file is of another architecture.
    Arch,
    /// The scaling is not YaRN.
    Scaling,
    /// The file has not this key.
    Missing(RopeKey),
    /// This key's value is out of range.
    Range(RopeKey),
    /// The compress ratios are absent or no array.
    Ratios,
    /// The compress ratio at this index is no unsigned number.
    Ratio(usize),
}

/// A rope's constants.
#[derive(Clone, Copy, Debug, PartialEq, Eq, Structural)]
pub enum Rope {
    /// The rope of the heads of a layer with no compressed stream.
    Window { base: u32, n_dims: u64 },
    /// YaRN: the heads of a layer with a stream, the pooled rows, the index
    /// keys and the indexer query.
    Yarn {
        base: u32,
        factor: u32,
        n_ctx_orig: i32,
        beta_fast: u32,
        beta_slow: u32,
        n_dims: u64,
    },
}

/// The file's rope and norm constants.
#[derive(Clone, Debug)]
pub struct RopeMeta {
    /// Values a rope turns at the tail of a row.
    pub n_dims: u64,
    pub window: Rope,
    pub yarn: Rope,
    /// One per layer.
    pub ratios: Vec<u64>,
    /// The norms' epsilon.
    pub eps: u32,
    /// Rows of a layer's raw window ring.
    pub ring: u64,
}

/// The first ratio from `at` on that is no unsigned number.
pub open spec fn first_bad_ratio(v: Seq<Option<u64>>, at: int) -> Option<int>
    decreases v.len() - at,
{
    if at < 0 || at >= v.len() {
        None
    } else if v[at] is None {
        Some(at)
    } else {
        first_bad_ratio(v, at + 1)
    }
}

/// What is wrong with a file's metadata, first things first.
pub open spec fn rope_fault(k: RopeKeys) -> Option<RopeError> {
    if !(k.arch matches Some(a) && a@ == Arch::Deepseek41.spelling()) {
        Some(RopeError::Arch)
    } else if !(k.scaling matches Some(s) && s@ == "yarn"@) {
        Some(RopeError::Scaling)
    } else if k.n_dims is None {
        Some(RopeError::Missing(RopeKey::NDims))
    } else if k.n_ctx_orig is None {
        Some(RopeError::Missing(RopeKey::NCtxOrig))
    } else if k.n_ctx_orig->0 > i32::MAX {
        Some(RopeError::Range(RopeKey::NCtxOrig))
    } else if k.ratios is None {
        Some(RopeError::Ratios)
    } else if first_bad_ratio(k.ratios->0@, 0) is Some {
        Some(RopeError::Ratio(first_bad_ratio(k.ratios->0@, 0)->0 as usize))
    } else if k.freq_base is None {
        Some(RopeError::Missing(RopeKey::FreqBase))
    } else if k.compress_base is None {
        Some(RopeError::Missing(RopeKey::CompressBase))
    } else if k.factor is None {
        Some(RopeError::Missing(RopeKey::Factor))
    } else if k.beta_fast is None {
        Some(RopeError::Missing(RopeKey::BetaFast))
    } else if k.beta_slow is None {
        Some(RopeError::Missing(RopeKey::BetaSlow))
    } else if k.eps is None {
        Some(RopeError::Missing(RopeKey::Eps))
    } else if k.ring is None {
        Some(RopeError::Missing(RopeKey::Ring))
    } else {
        None
    }
}

/// The constants are those of the metadata.
pub open spec fn is_of(m: RopeMeta, k: RopeKeys) -> bool {
    &&& k.n_dims == Some(m.n_dims)
    &&& m.window == (Rope::Window { base: k.freq_base->0, n_dims: m.n_dims })
    &&& m.yarn == (Rope::Yarn {
        base: k.compress_base->0,
        factor: k.factor->0,
        n_ctx_orig: k.n_ctx_orig->0 as i32,
        beta_fast: k.beta_fast->0,
        beta_slow: k.beta_slow->0,
        n_dims: m.n_dims,
    })
    &&& m.ratios@.len() == k.ratios->0@.len()
    &&& forall|i: int|
        0 <= i < m.ratios@.len() ==> k.ratios->0@[i] == Some(#[trigger] m.ratios@[i])
    &&& k.eps == Some(m.eps)
    &&& k.ring == Some(m.ring)
}

/// A value the file must have.
fn wanted<T: Copy>(v: Option<T>, key: RopeKey) -> (r: Result<T, RopeError>)
    ensures
        match r {
            Ok(x) => v == Some(x),
            Err(e) => v is None && e == RopeError::Missing(key),
        },
{
    match v {
        Some(x) => Ok(x),
        None => Err(RopeError::Missing(key)),
    }
}

impl RopeMeta {
    /// The constants of a file's metadata, which must be a V4.1 file's.
    pub fn read(k: &RopeKeys) -> (r: Result<RopeMeta, RopeError>)
        ensures
            match r {
                Ok(m) => rope_fault(*k) is None && is_of(m, *k),
                Err(e) => rope_fault(*k) == Some(e),
            },
    {
        let arch: Option<&str> = match &k.arch {
            Some(a) => Some(a.as_str()),
            None => None,
        };
        if !expect_arch(arch, Arch::Deepseek41) {
            return Err(RopeError::Arch);
        }
        let yarn: bool = match &k.scaling {
            Some(s) => text::same_str(s.as_str(), "yarn"),
            None => false,
        };
        if !yarn {
            return Err(RopeError::Scaling);
        }
        let n_dims: u64 = wanted(k.n_dims, RopeKey::NDims)?;
        let n_ctx_orig: u64 = wanted(k.n_ctx_orig, RopeKey::NCtxOrig)?;
        if n_ctx_orig > i32::MAX as u64 {
            return Err(RopeError::Range(RopeKey::NCtxOrig));
        }
        let mut ratios: Vec<u64> = Vec::new();
        match &k.ratios {
            None => {
                return Err(RopeError::Ratios);
            },
            Some(list) => {
                let mut i: usize = 0;
                while i < list.len()
                    invariant
                        i <= list@.len(),
                        ratios@.len() == i,
                        k.ratios matches Some(l) && l@ == list@,
                        first_bad_ratio(list@, 0) == first_bad_ratio(list@, i as int),
                        forall|x: int|
                            0 <= x < i ==> list@[x] == Some(#[trigger] ratios@[x]),
                        k.arch matches Some(a) && a@ == Arch::Deepseek41.spelling(),
                        k.scaling matches Some(s) && s@ == "yarn"@,
                        k.n_dims is Some,
                        k.n_ctx_orig matches Some(n) && n <= i32::MAX,
                    decreases list@.len() - i,
                {
                    match list[i] {
                        Some(v) => ratios.push(v),
                        None => {
                            return Err(RopeError::Ratio(i));
                        },
                    }
                    i += 1;
                }
            },
        }
        let freq_base: u32 = wanted(k.freq_base, RopeKey::FreqBase)?;
        let compress_base: u32 = wanted(k.compress_base, RopeKey::CompressBase)?;
        let factor: u32 = wanted(k.factor, RopeKey::Factor)?;
        let beta_fast: u32 = wanted(k.beta_fast, RopeKey::BetaFast)?;
        let beta_slow: u32 = wanted(k.beta_slow, RopeKey::BetaSlow)?;
        let eps: u32 = wanted(k.eps, RopeKey::Eps)?;
        let ring: u64 = wanted(k.ring, RopeKey::Ring)?;
        Ok(
            RopeMeta {
                n_dims,
                window: Rope::Window { base: freq_base, n_dims },
                yarn: Rope::Yarn {
                    base: compress_base,
                    factor,
                    n_ctx_orig: n_ctx_orig as i32,
                    beta_fast,
                    beta_slow,
                    n_dims,
                },
                ratios,
                eps,
                ring,
            },
        )
    }

    /// The rope of layer `l`'s heads and its name: the compressed one where the
    /// layer's ratio is not 0; `None` of a layer without a ratio.
    pub fn head_spec(&self, l: usize) -> (r: Option<(Rope, &'static str)>)
        ensures
            match r {
                Some((rope, name)) => l < self.ratios@.len() && (if self.ratios@[l as int] == 0 {
                    rope == self.window && name@ == "window"@
                } else {
                    rope == self.yarn && name@ == "yarn"@
                }),
                None => l >= self.ratios@.len(),
            },
    {
        if l >= self.ratios.len() {
            None
        } else if self.ratios[l] == 0 {
            Some((self.window, "window"))
        } else {
            Some((self.yarn, "yarn"))
        }
    }
}

// ------------------------------------------------------------ kernels

/// A tensor of a step's pieces.
#[derive(Clone, Copy, Debug, PartialEq, Eq, Structural)]
pub enum Weight {
    /// The shared expert's gate.
    ShexpGate,
    /// The shared expert's up projection.
    ShexpUp,
    /// The shared expert's down projection.
    ShexpDown,
    /// The engram site's table.
    EngramTable,
    /// The engram site's key and value projection.
    EngramWkv,
}

/// Why a piece has no kernels.
#[derive(Clone, Copy, Debug, PartialEq, Eq, Structural)]
pub enum KernelError {
    /// The file has not this tensor.
    Absent(Weight),
    /// This tensor's type has no kernel.
    NoKernel(Weight, GgmlType),
}

/// The kernels of a dense projection by its type.
pub open spec fn dense_kernels(ty: GgmlType) -> Option<Seq<Seq<char>>> {
    match ty {
        GgmlType::Q8_0 => Some(seq!["q8_0_gemv"@]),
        GgmlType::Q3_K => Some(seq!["q3k_quantize_q8_1"@, "q3k_gemv"@]),
        GgmlType::Q4_K => Some(seq!["q3k_quantize_q8_1"@, "q4k_gemv"@]),
        GgmlType::Q5_K => Some(seq!["ds41_q5k_gemv_f32"@]),
        _ => None,
    }
}

/// The kernels the step launches for one dense projection, in stream order: the
/// q8_1 form of its input first where a K-quant gemv reads one and the step
/// makes it for this projection alone. Appends them to a list.
fn projection(out: &mut Vec<&'static str>, w: Weight, ty: Option<GgmlType>) -> (r: Result<
    (),
    KernelError,
>)
    ensures
        match r {
            Ok(_) => ty is Some && (dense_kernels(ty->0) matches Some(k) && names(final(out)@)
                == names(old(out)@) + k),
            Err(e) => e == (match ty {
                None => KernelError::Absent(w),
                Some(t) => KernelError::NoKernel(w, t),
            }) && (ty matches Some(t) ==> dense_kernels(t) is None),
        },
{
    let ty: GgmlType = match ty {
        Some(t) => t,
        None => {
            return Err(KernelError::Absent(w));
        },
    };
    let ghost held = names(out@);
    match ty {
        GgmlType::Q8_0 => {
            out.push("q8_0_gemv");
        },
        GgmlType::Q3_K => {
            out.push("q3k_quantize_q8_1");
            out.push("q3k_gemv");
        },
        GgmlType::Q4_K => {
            out.push("q3k_quantize_q8_1");
            out.push("q4k_gemv");
        },
        GgmlType::Q5_K => {
            out.push("ds41_q5k_gemv_f32");
        },
        other => {
            return Err(KernelError::NoKernel(w, other));
        },
    }
    assert(names(out@) =~= held + dense_kernels(ty)->0);
    Ok(())
}

/// What the MoE piece launches before its down projection.
pub open spec fn shadow_head(card_experts: bool, gate: GgmlType, up: GgmlType) -> Seq<Seq<char>> {
    (if card_experts {
        seq!["ds41_hc_pre"@, "ds41_expert_gate_up"@, "q3k_quantize_q8_1"@, "q4k_gemv_sel"@]
    } else {
        seq!["ds41_hc_pre"@]
    }) + (if gate == GgmlType::Q3_K && up == GgmlType::Q3_K {
        seq!["ds41_shexp_gate_up_q3k"@]
    } else {
        seq!["ds41_shexp_gate_up"@]
    })
}

/// The MoE piece's own work in a layer's host-leg shadow, in stream order:
/// HC_PRE, with card experts the routed gate·up, h's q8_1 and the routed down,
/// then the shared expert's gate·up (or its q3_K twin when both weights are
/// q3_K) and down. The types are those of the shared expert's weights, where
/// the file has them.
pub fn shadow_kernels(
    card_experts: bool,
    gate: Option<GgmlType>,
    up: Option<GgmlType>,
    down: Option<GgmlType>,
) -> (r: Result<Vec<&'static str>, KernelError>)
    ensures
        match r {
            Ok(k) => gate is Some && up is Some && down is Some && (dense_kernels(
                down->0,
            ) matches Some(d) && names(k@) == shadow_head(card_experts, gate->0, up->0) + d),
            Err(e) => e == (if gate is None {
                KernelError::Absent(Weight::ShexpGate)
            } else if up is None {
                KernelError::Absent(Weight::ShexpUp)
            } else if down is None {
                KernelError::Absent(Weight::ShexpDown)
            } else {
                KernelError::NoKernel(Weight::ShexpDown, down->0)
            }) && (gate is Some && up is Some && down is Some ==> dense_kernels(down->0) is None),
        },
{
    let mut k: Vec<&'static str> = vec!["ds41_hc_pre"];
    if card_experts {
        k.push("ds41_expert_gate_up");
        k.push("q3k_quantize_q8_1");
        k.push("q4k_gemv_sel");
    }
    let gate: GgmlType = match gate {
        Some(t) => t,
        None => {
            return Err(KernelError::Absent(Weight::ShexpGate));
        },
    };
    let up: GgmlType = match up {
        Some(t) => t,
        None => {
            return Err(KernelError::Absent(Weight::ShexpUp));
        },
    };
    if gate == GgmlType::Q3_K && up == GgmlType::Q3_K {
        k.push("ds41_shexp_gate_up_q3k");
    } else {
        k.push("ds41_shexp_gate_up");
    }
    assert(names(k@) =~= shadow_head(card_experts, gate, up));
    projection(&mut k, Weight::ShexpDown, down)?;
    Ok(k)
}

/// The kernel that decodes an engram table's rows.
pub open spec fn table_kernel(ty: GgmlType) -> Option<Seq<char>> {
    match ty {
        GgmlType::Q8_0 => Some("ds41_glue_engram_rows"@),
        GgmlType::Q3_K => Some("ds41_glue_engram_rows_q3k"@),
        _ => None,
    }
}

/// An engram site's token-only work, in stream order: its rows decoded, the key
/// and value projection and the key norm. It reads the step image and weights
/// alone.
pub fn engram_kv_kernels(table: Option<GgmlType>, wkv: Option<GgmlType>) -> (r: Result<
    Vec<&'static str>,
    KernelError,
>)
    ensures
        match r {
            Ok(k) => table is Some && wkv is Some && table_kernel(table->0) is Some
                && dense_kernels(wkv->0) is Some && names(k@) == seq![table_kernel(table->0)->0]
                + dense_kernels(wkv->0)->0 + seq!["ds41_engram_key_norm"@],
            Err(e) => match table {
                None => e == KernelError::Absent(Weight::EngramTable),
                Some(t) => match table_kernel(t) {
                    None => e == KernelError::NoKernel(Weight::EngramTable, t),
                    Some(_) => match wkv {
                        None => e == KernelError::Absent(Weight::EngramWkv),
                        Some(w) => dense_kernels(w) is None && e == KernelError::NoKernel(
                            Weight::EngramWkv,
                            w,
                        ),
                    },
                },
            },
        },
{
    let table: GgmlType = match table {
        Some(t) => t,
        None => {
            return Err(KernelError::Absent(Weight::EngramTable));
        },
    };
    let mut k: Vec<&'static str> = Vec::new();
    match table {
        GgmlType::Q8_0 => {
            k.push("ds41_glue_engram_rows");
        },
        GgmlType::Q3_K => {
            k.push("ds41_glue_engram_rows_q3k");
        },
        other => {
            return Err(KernelError::NoKernel(Weight::EngramTable, other));
        },
    }
    assert(names(k@) =~= seq![table_kernel(table)->0]);
    projection(&mut k, Weight::EngramWkv, wkv)?;
    let ghost held = names(k@);
    k.push("ds41_engram_key_norm");
    assert(names(k@) =~= held + seq!["ds41_engram_key_norm"@]);
    Ok(k)
}

/// The rope's keys are read exactly where the architecture and the scaling are the
/// ones it knows, every key is there, the context fits and every ratio is one.
pub proof fn law_the_ropes_keys_are_all_there(k: RopeKeys, i: int)
    ensures
        rope_fault(k) is None ==> {
            &&& k.arch matches Some(a) && a@ == "deepseek41"@
            &&& k.scaling matches Some(s) && s@ == "yarn"@
            &&& k.n_dims is Some && k.freq_base is Some && k.compress_base is Some
            &&& k.factor is Some && k.beta_fast is Some && k.beta_slow is Some
            &&& k.eps is Some && k.ring is Some
            &&& k.n_ctx_orig matches Some(n) && n < 0x8000_0000
            &&& k.ratios matches Some(r) && (0 <= i < r@.len() ==> r@[i] is Some)
        },
        (k.arch matches Some(a) && a@ == "deepseek41"@) && (k.scaling matches Some(s) && s@
            == "yarn"@) && k.n_dims is Some && k.freq_base is Some && k.compress_base is Some
            && k.factor is Some && k.beta_fast is Some && k.beta_slow is Some && k.eps is Some
            && k.ring is Some && (k.n_ctx_orig matches Some(n) && n < 0x8000_0000) && (
        k.ratios matches Some(r) && forall|j: int|
            0 <= j < r@.len() ==> #[trigger] r@[j] is Some) ==> rope_fault(k) is None,
{
    if let Some(r) = k.ratios {
        lemma_first_bad_ratio_is(r@, 0, i);
    }
}

/// The first ratio that is none is one that none such comes before.
proof fn lemma_first_bad_ratio_is(v: Seq<Option<u64>>, at: int, i: int)
    requires
        0 <= at,
    ensures
        match first_bad_ratio(v, at) {
            Some(f) => at <= f < v.len() && v[f] is None && (at <= i < f ==> v[i] is Some),
            None => at <= i < v.len() ==> v[i] is Some,
        },
    decreases v.len() - at,
{
    if at < v.len() && v[at] is Some {
        lemma_first_bad_ratio_is(v, at + 1, i);
    }
}

/// A quantised product takes its input's quantisation before it exactly for the two
/// types whose kernel reads eight-bit blocks.
pub proof fn law_a_product_ends_its_kernels(ty: GgmlType)
    ensures
        dense_kernels(ty) is Some <==> (ty == GgmlType::Q8_0 || ty == GgmlType::Q3_K || ty
            == GgmlType::Q4_K || ty == GgmlType::Q5_K),
        dense_kernels(ty) matches Some(k) ==> {
            &&& k.len() == (if ty == GgmlType::Q3_K || ty == GgmlType::Q4_K {
                2int
            } else {
                1
            })
            &&& k.len() == 2 ==> k[0] == "q3k_quantize_q8_1"@
            &&& ty == GgmlType::Q3_K ==> k.last() == "q3k_gemv"@
            &&& ty == GgmlType::Q4_K ==> k.last() == "q4k_gemv"@
            &&& ty == GgmlType::Q8_0 ==> k.last() == "q8_0_gemv"@
            &&& ty == GgmlType::Q5_K ==> k.last() == "ds41_q5k_gemv_f32"@
        },
        table_kernel(ty) is Some <==> (ty == GgmlType::Q8_0 || ty == GgmlType::Q3_K),
{
}

/// The shadow's kernels open with the hyper-connection's, add the card's experts
/// only where the card has them, and end with the shared expert's: the one for Q3_K
/// exactly where both its halves are Q3_K.
pub proof fn law_the_shadows_kernels(card_experts: bool, gate: GgmlType, up: GgmlType)
    ensures
        ({
            let h = shadow_head(card_experts, gate, up);
            &&& h[0] == "ds41_hc_pre"@
            &&& h.len() == (if card_experts {
                5int
            } else {
                2
            })
            &&& card_experts ==> h[1] == "ds41_expert_gate_up"@ && h[2] == "q3k_quantize_q8_1"@ && h[3]
                == "q4k_gemv_sel"@
            &&& h.last() == "ds41_shexp_gate_up_q3k"@ <==> (gate == GgmlType::Q3_K && up
                == GgmlType::Q3_K)
            &&& h.last() == "ds41_shexp_gate_up_q3k"@ || h.last() == "ds41_shexp_gate_up"@
        }),
{
    reveal_strlit("ds41_shexp_gate_up_q3k");
    reveal_strlit("ds41_shexp_gate_up");
    assert("ds41_shexp_gate_up_q3k"@.len() == 22 && "ds41_shexp_gate_up"@.len() == 18);
}

/// What is read is what the keys say: the window's rope turns by the plain base and
/// the other by the compressed one with its stretch, both over the same dims, and
/// every layer's ratio is its own.
pub proof fn law_the_meta_is_its_keys(m: RopeMeta, k: RopeKeys, i: int)
    requires
        rope_fault(k) is None,
        is_of(m, k),
    ensures
        m.window matches Rope::Window { base, n_dims } && k.freq_base == Some(base) && k.n_dims == Some(
            n_dims,
        ),
        m.yarn matches Rope::Yarn { base, factor, n_ctx_orig, beta_fast, beta_slow, n_dims }
            && k.compress_base == Some(base) && k.factor == Some(factor) && (k.n_ctx_orig matches Some(c)
            && c == n_ctx_orig) && k.beta_fast == Some(beta_fast) && k.beta_slow == Some(beta_slow)
            && k.n_dims == Some(n_dims),
        m.ratios@.len() == k.ratios->0@.len(),
        0 <= i < m.ratios@.len() ==> k.ratios->0@[i] == Some(m.ratios@[i]),
        k.eps == Some(m.eps),
        k.ring == Some(m.ring),
        k.n_dims == Some(m.n_dims),
{
}

} // verus!
