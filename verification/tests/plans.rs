use gpu_gates::bind::{
    class_of, layer_range, nvidia_smi_index, placement_props, quant, sampler_params, Class, Device,
    PlanCard, PlanFacts, PlanRow, PropsError, Role, SamplingParams, Segment, TensorFact, ONE,
};
use gpu_gates::ds41_meta::{
    engram_kv_kernels, shadow_kernels, KernelError, Rope, RopeError, RopeKey, RopeKeys, RopeMeta,
    Weight,
};
use gpu_gates::finite::{
    describe, logit_stats, moe_fault, place_name, site_name, token, Buf, MoeTaps, Piece, Seams,
    Site,
};
use gpu_gates::model_file::GgmlType;
use gpu_gates::nodes::{
    count_kinds, describe as describe_node, kind_name, Captured, EdgeError, NodeKind, StepNode,
};

fn bits(v: &[f32]) -> Vec<u32> {
    v.iter().map(|x| x.to_bits()).collect()
}

/// Roles are filed under their class, ranges written first to last.
#[test]
fn roles_have_classes() {
    assert_eq!(class_of(Role::Router), Class::Experts);
    assert_eq!(class_of(Role::EngramGain), Class::Ngram);
    assert_eq!(class_of(Role::Unused), Class::Other);
    assert_eq!(Class::Ffn.name(), "ffn");
    assert_eq!(layer_range(0, 27), "0-26");
    assert_eq!(layer_range(4, 4), "none");
}

/// The type of the most bytes names the quantization.
#[test]
fn the_quant_holds_the_most_bytes() {
    let t = |role: Role, ty: &str, bytes: u64| TensorFact {
        role,
        ty: Some(ty.to_string()),
        bytes,
    };
    let ts = [
        t(Role::Attention, "Q3_K", 10),
        t(Role::RoutedExperts, "Q4_K", 8),
        t(Role::RoutedExperts, "Q4_K", 8),
        t(Role::TokenEmbedding, "F32", 999),
    ];
    assert_eq!(quant(&ts).as_deref(), Some("Q4_K"));
    assert_eq!(quant(&ts[3..]), None);
    let tie = [t(Role::Attention, "Q3_K", 8), t(Role::Head, "Q6_K", 8)];
    assert_eq!(quant(&tie).as_deref(), Some("Q6_K"));
}

/// A placement's bytes by device and class, adding up to the plan's.
#[test]
fn a_placement_adds_up() {
    let seg = |device: Device, resident_bytes: u64| Segment {
        device,
        resident_bytes,
    };
    let p = PlanFacts {
        roles: vec![Role::Attention, Role::RoutedExperts],
        rows: vec![
            PlanRow {
                tensor: 0,
                segments: vec![seg(Device::Card(0), 5)],
            },
            PlanRow {
                tensor: 1,
                segments: vec![seg(Device::Card(0), 7), seg(Device::Host, 11)],
            },
        ],
        cards: vec![PlanCard {
            kv_bytes: 100,
            first_layer: 0,
            end_layer: 3,
        }],
    };
    let props = placement_props(&p, &["A6000".to_string()]).unwrap();
    assert_eq!(props.vram_kv_bytes, 100);
    assert!(props.devices[0].device.contains("A6000"));
    assert_eq!(props.devices[0].layers.as_deref(), Some("0-2"));
    let card: u64 = props.devices[0].class_bytes.iter().map(|c| c.bytes).sum();
    assert_eq!(card, 12);
    let all: u64 = props
        .devices
        .iter()
        .flat_map(|d| d.class_bytes.iter().map(|c| c.bytes))
        .sum();
    assert_eq!(all, 23);
    assert!(matches!(
        placement_props(&p, &[]),
        Err(PropsError::Names)
    ));
    let mut past = p;
    past.rows[1].tensor = 2;
    assert!(matches!(
        placement_props(&past, &["A6000".to_string()]),
        Err(PropsError::PastModel(2))
    ));
}

/// One card of a name, or how many there are.
#[test]
fn a_card_is_found_by_name() {
    let listing = "0, NVIDIA RTX A6000, GPU-aaaa\n1, NVIDIA GeForce RTX 3090, GPU-bbbb\n2, NVIDIA GeForce RTX 3090, GPU-cccc\n";
    assert_eq!(nvidia_smi_index(listing, "A6000", None), Ok(0));
    assert_eq!(nvidia_smi_index(listing, "3090", None), Err(2));
    assert_eq!(
        nvidia_smi_index(listing, "3090", Some("GPU-cccc")),
        Ok(2)
    );
    assert_eq!(nvidia_smi_index(listing, "H100", None), Err(0));
}

/// A request's sampling as the sampler takes it.
#[test]
fn sampling_clamps_what_the_sampler_does_not_take() {
    let p = SamplingParams {
        temperature: 0.7f32.to_bits(),
        top_k: -1,
        top_p: 0.9f32.to_bits(),
        min_p: 0,
        seed: 4,
    };
    let s = sampler_params(&p);
    assert_eq!((s.top_k, s.seed), (0, 4));
    assert_eq!((s.repeat_penalty, s.repeat_last_n), (ONE, 0));
    assert_eq!(ONE, 1.0f32.to_bits());
    assert_eq!(
        sampler_params(&SamplingParams { top_k: 40, ..p }).top_k,
        40
    );
}

fn rope_keys() -> RopeKeys {
    RopeKeys {
        arch: Some("deepseek41".to_string()),
        scaling: Some("yarn".to_string()),
        n_dims: Some(64),
        n_ctx_orig: Some(4096),
        ratios: Some(vec![Some(0), Some(4)]),
        freq_base: Some(1),
        compress_base: Some(2),
        factor: Some(3),
        beta_fast: Some(4),
        beta_slow: Some(5),
        eps: Some(6),
        ring: Some(128),
    }
}

/// A file's ropes, and each key it may lack.
#[test]
fn ropes_come_from_the_metadata() {
    let m = RopeMeta::read(&rope_keys()).unwrap();
    assert_eq!(m.window, Rope::Window { base: 1, n_dims: 64 });
    assert_eq!(m.ratios, [0, 4]);
    assert_eq!(m.head_spec(0), Some((m.window, "window")));
    assert_eq!(m.head_spec(1), Some((m.yarn, "yarn")));
    assert_eq!(m.head_spec(2), None);
    let err = |f: &dyn Fn(&mut RopeKeys)| {
        let mut k = rope_keys();
        f(&mut k);
        RopeMeta::read(&k).err()
    };
    assert_eq!(err(&|k| k.arch = None), Some(RopeError::Arch));
    assert_eq!(err(&|k| k.scaling = None), Some(RopeError::Scaling));
    assert_eq!(
        err(&|k| k.n_ctx_orig = Some(1 << 31)),
        Some(RopeError::Range(RopeKey::NCtxOrig))
    );
    assert_eq!(err(&|k| k.ratios = None), Some(RopeError::Ratios));
    assert_eq!(
        err(&|k| k.ratios = Some(vec![Some(0), None])),
        Some(RopeError::Ratio(1))
    );
    assert_eq!(
        err(&|k| k.eps = None),
        Some(RopeError::Missing(RopeKey::Eps))
    );
    assert_eq!(
        err(&|k| k.ring = None),
        Some(RopeError::Missing(RopeKey::Ring))
    );
}

/// The kernels the file's types decide.
#[test]
fn kernels_follow_the_types() {
    let q3 = Some(GgmlType::Q3_K);
    let k = shadow_kernels(true, q3, q3, Some(GgmlType::Q5_K)).unwrap();
    assert!(k.contains(&"ds41_q5k_gemv_f32"));
    assert_eq!(
        shadow_kernels(true, None, q3, q3),
        Err(KernelError::Absent(Weight::ShexpGate))
    );
    assert_eq!(
        shadow_kernels(true, q3, q3, Some(GgmlType::F16)),
        Err(KernelError::NoKernel(Weight::ShexpDown, GgmlType::F16))
    );
    let k = engram_kv_kernels(Some(GgmlType::Q8_0), Some(GgmlType::Q8_0)).unwrap();
    assert_eq!(k[0], "ds41_glue_engram_rows");
    assert_eq!(
        engram_kv_kernels(Some(GgmlType::F32), q3),
        Err(KernelError::NoKernel(Weight::EngramTable, GgmlType::F32))
    );
}

/// The seams of a step, the first non-finite one named.
#[test]
fn seams_name_the_first_bad_one() {
    let at = |layer: usize, piece: Piece| Site { layer, piece };
    let mut s = Seams::new();
    assert!(!s.see(at(0, Piece::Attention), &bits(&[1.0, 2.0])));
    assert_eq!(s.first_nonfinite(), None);
    assert_eq!(describe(&s, "2", 0, None), "ok");
    s.see(at(1, Piece::Moe), &bits(&[1.0, f32::NAN]));
    s.see(at(2, Piece::Moe), &bits(&[f32::INFINITY]));
    assert_eq!(s.first_nonfinite(), Some(at(1, Piece::Moe)));
    assert_eq!(site_name(at(1, Piece::Moe)), "(1, moe)");
    let line = "nonfinite_seams=2 first=(1, moe) ((1, moe) (2, moe)) logits absmax=2 nonfinite=1";
    assert_eq!(describe(&s, "2", 1, None), line);
    assert_eq!(describe(&s, "2", 1, Some("layer 1")), format!("{line} layer 1"));
    let b = Buf::of("y".to_string(), &bits(&[1.0, f32::NAN, -3.0, f32::INFINITY]));
    assert_eq!((b.len, b.bad, b.first_bad), (4, 2, Some(1)));
    assert_eq!(b.absmax, 3.0f32.to_bits());
    assert_eq!(token(&bits(&[0.0; 5])), 0);
    assert_eq!(token(&bits(&[0.0, 2.0, 2.0, 1.0])), 1);
    assert_eq!(
        logit_stats(&bits(&[1.0, f32::NAN, -4.0])),
        (4.0f32.to_bits(), 1)
    );
}

/// A MoE seam's buffers in launch order: a host slot's are not the card's.
#[test]
fn a_moe_fault_lists_its_buffers() {
    let good = bits(&[1.0, 2.0]);
    let bad = bits(&[1.0, f32::NAN]);
    let t = MoeTaps {
        layer: 4,
        ids: &[7, 9],
        places: &[0, 99],
        host: 99,
        fold_in: &good,
        router_logits: &good,
        router_probs: &good,
        router_weights: &good,
        hc_pre: &good,
        h: &good,
        down: &good,
        shexp_h: &good,
        shexp: &good,
        y: &bad,
        streams: &bad,
        fold_out: None,
    };
    let f = moe_fault(&t);
    assert_eq!(f.layer, 4);
    assert_eq!(f.first_bad().map(|b| b.name.as_str()), Some("y"));
    assert!(f.host_sum_carried());
    assert_eq!(f.buffers.len(), 5 + 2 + 4);
    assert_eq!((f.ids.as_slice(), f.places.as_slice()), (&[7, 9][..], &[0, 99][..]));
    assert_eq!((&f.weights, &f.fold_in), (&good, &good));
    let text = |v: &[&str]| v.iter().map(|t| t.to_string()).collect::<Vec<String>>();
    let weights = text(&["0.250000", "0.750000"]);
    let absmax = text(&["2e0"; 11]);
    let line = f.line(&weights, "1.5e0", &absmax);
    assert!(line.starts_with(
        "layer 4 moe: routing [7 w=0.250000 card 0] [9 w=0.750000 host]; first bad buffer y \
         (1/2 non-finite, first at Some(1)) — every card slot and the shared expert are finite: \
         the host's partial sum; fold_in rms=1.5e0; fold_in absmax=2e0 bad=0; router.logits"
    ));
    assert!(line.ends_with("; y absmax=2e0 bad=1; streams absmax=2e0 bad=1"));
    assert!(line.contains("; h[slot 0 id 7] absmax=2e0 bad=0; down[slot 0 id 7]"));
    let whole = moe_fault(&MoeTaps {
        y: &good,
        streams: &good,
        ..t
    });
    assert!(!whole.host_sum_carried());
    assert!(whole
        .line(&weights, "0", &absmax)
        .contains("host]; every buffer the seam shows is finite; fold_in rms=0; "));
    assert_eq!(place_name(99, 99), "host");
    assert_eq!(place_name(3, 99), "card 3");
}

/// A captured step's nodes: each kind counted once, and the edges mirrored.
#[test]
fn a_captured_graph_mirrors_its_edges() {
    let k = NodeKind::Kernel;
    let m = NodeKind::Memset;
    assert_eq!(
        count_kinds(&[k, m, k, NodeKind::Empty], &[k, m]),
        (vec![2, 1], 1)
    );
    assert_eq!(kind_name(NodeKind::Kernel), "kernel");
    assert!(kind_name(NodeKind::Type(42)).contains("42"));
    let nodes = || {
        vec![
            describe_node(k, Some("a".to_string()), 0).unwrap(),
            describe_node(NodeKind::BatchMemOp, None, 3).unwrap(),
            describe_node(m, None, 0).unwrap(),
        ]
    };
    let c = Captured::of(nodes(), &[10, 20, 30], &[vec![30, 20], vec![30], vec![]]).unwrap();
    assert_eq!(c.dependents, [vec![1, 2], vec![2], vec![]]);
    assert_eq!(c.deps, [vec![], vec![0], vec![0, 1]]);
    assert_eq!(c.kernel(0), Some("a"));
    assert_eq!(c.kernel(1), None);
    assert!(matches!(&c.nodes[1], StepNode::Memop(3)));
    assert!(matches!(
        Captured::of(nodes(), &[10, 20, 30], &[vec![40], vec![], vec![]]),
        Err(EdgeError::Unlisted(0))
    ));
    assert!(matches!(
        Captured::of(nodes(), &[10, 20, 30], &[vec![], vec![10], vec![]]),
        Err(EdgeError::Backward(1, 0))
    ));
    assert!(describe_node(k, None, 0).is_err());
}
