use gpu_gates::block::{
    check_logical_views, check_row, compare_against, taps, Band, Bands, BlockKind, CompareError,
    Tap, TapKind, TapResult, ViewError, ViewFiles, Viewed,
};
use gpu_gates::files::FileError;
use gpu_gates::manifest::RefRow;
use gpu_gates::qwen3moe::{
    attn_plan, f16_logical_bits, q4k_parts, sets, step_sets, AttnError, AttnFiles, AttnRows, Part,
    PlanError,
};
use gpu_gates::set::RefManifest;

fn manifest(lines: &[String]) -> RefManifest {
    RefManifest::parse(&(lines.join("\n") + "\n")).unwrap()
}

fn le(vals: &[f32]) -> Vec<u8> {
    vals.iter().flat_map(|v| v.to_le_bytes()).collect()
}

fn row(name: &str, ne: [u64; 4], op: &str, contig: u8, logical: u8) -> String {
    let bytes = ne.iter().product::<u64>() * 4;
    format!(
        "tensor\t{name}\t0\tf32\t{}\t{}\t{}\t{}\t{bytes}\t0\t{op}\t{contig}\t{logical}\t-\t-",
        ne[0], ne[1], ne[2], ne[3]
    )
}

/// The tap lists stand in forward order, and a kind's rank names it.
#[test]
fn taps_stand_in_forward_order() {
    for kind in [
        BlockKind::Dense0,
        BlockKind::Moe,
        BlockKind::Last,
        BlockKind::Head,
    ] {
        let list = taps(kind, 3);
        assert!(!list.is_empty());
        for w in list.windows(2) {
            assert!(w[0].order_key() < w[1].order_key());
        }
    }
    assert_eq!(TapKind::AttnNorm.forward_rank(), 0);
    assert!(TapKind::Q.forward_rank() < TapKind::ResultOutput.forward_rank());
    assert_eq!(TapKind::KqvCompressed.tensor_name(7), "kqv_compressed-7");
    assert_eq!(TapKind::ResultNorm.tensor_name(7), "result_norm");
    assert_eq!(TapKind::QRope.per_token(), 64 * 16);
    assert_eq!(TapKind::ResultOutput.per_token(), 102_400);
    let s = TapKind::FfnMoeWeights.shape();
    assert_eq!((s.base, s.token_axis, s.op), ([1, 6, 1, 1], 2, "GET_ROWS"));
    let head = taps(BlockKind::Head, 26);
    assert!(head.iter().all(|t| t.last_token_only));
}

/// A tap reads its row, and each way it does not.
#[test]
fn a_tap_is_read_through_its_row() {
    let tap = Tap::new(TapKind::FfnMoeLogits, 1, false);
    assert_eq!(tap.name(), "ffn_moe_logits-1");
    let man = manifest(&[row("ffn_moe_logits-1", [64, 2, 1, 1], "MUL_MAT", 1, 0)]);
    let vals: Vec<f32> = (0..128).map(|i| i as f32).collect();
    let raw = le(&vals);
    let rows: &[RefRow] = &man.tensors;
    assert!(check_row(&rows[0], &tap, 2).is_ok());
    assert!(check_row(&rows[0], &tap, 3).is_err());
    let got = compare_against(rows, &tap, 128, 2, &raw).unwrap();
    assert_eq!(got[5], 5.0f32.to_bits());
    assert_eq!(
        compare_against(rows, &tap, 127, 2, &raw),
        Err(CompareError::Got)
    );
    assert_eq!(
        compare_against(rows, &tap, 128, 3, &raw),
        Err(CompareError::Row)
    );
    assert_eq!(
        compare_against(rows, &Tap::new(TapKind::Q, 1, false), 128, 2, &raw),
        Err(CompareError::NoRow)
    );
    assert_eq!(
        compare_against(rows, &tap, 128, 2, &raw[..8]),
        Err(CompareError::File(FileError::FileBytes))
    );
    assert!(check_row(&rows[0], &tap.with_op("ADD"), 2).is_err());
}

/// The first of the largest differences is the worst; the first tap in forward
/// order names a divergence.
#[test]
fn the_first_divergence_is_named() {
    let q = Tap::new(TapKind::Q, 2, false);
    let norm = Tap::new(TapKind::AttnNorm, 2, false);
    let b = |x: f32| x.to_bits();
    let worst = TapResult::of(&norm, b(0.5), &[b(0.1), b(0.4), b(0.2), b(0.4)]);
    assert_eq!((worst.worst_index, worst.n), (1, 4));
    let bad_q = TapResult::of(&q, b(0.5), &[b(0.1)]);
    let bands = Bands::pinned(&[
        Band {
            kind: TapKind::Q,
            layer: 2,
            band: b(0.1),
        },
        Band {
            kind: TapKind::AttnNorm,
            layer: 2,
            band: b(0.01),
        },
        Band {
            kind: TapKind::AttnNorm,
            layer: 2,
            band: b(0.1),
        },
    ]);
    assert_eq!(bands.band(TapKind::AttnNorm, 2), Some(b(0.1)));
    assert_eq!(bands.band(TapKind::AttnNorm, 3), None);
    let v = bands.check(&[bad_q.clone(), worst.clone()]);
    assert_eq!(v.all.len(), 2);
    assert_eq!(v.first, Some((TapKind::AttnNorm, 2)));
    assert_eq!(
        v.first_line(),
        "first divergence in forward order: L2 attn_norm-2"
    );
    assert!(bands.assert_within(&[bad_q]).is_err());
    let fine = TapResult::of(&norm, b(0.1), &[b(0.0)]);
    assert!(bands.assert_within(&[fine.clone()]).is_ok());
    assert_eq!(bands.check(&[fine]).first_line(), "no violations");
}

/// A layer's views are the slices of their bases, and each way one is not.
#[test]
fn views_are_slices_of_their_bases() {
    let lines = [
        row("kv_rope_compressed-1", [576, 1, 1, 1], "MUL_MAT", 1, 0),
        row("kv_compressed-1", [512, 1, 1, 1], "VIEW", 1, 0),
        row("k_rope-1", [64, 1, 1, 1], "VIEW", 1, 0),
        row("q-1", [3072, 1, 1, 1], "MUL_MAT", 1, 0),
        row("q_rope-1", [64, 16, 1, 1], "VIEW", 0, 1),
    ];
    let man = manifest(&lines);
    let base: Vec<f32> = (0..576).map(|i| i as f32 + 1.0).collect();
    let q: Vec<f32> = (0..3072).map(|i| -(i as f32) - 1.0).collect();
    let mut q_rope: Vec<f32> = Vec::new();
    for h in 0..16 {
        q_rope.extend_from_slice(&q[h * 192 + 128..(h + 1) * 192]);
    }
    let flat: Vec<f32> = q[128..128 + 1024].to_vec();
    let (kv, latent, tail) = (le(&base), le(&base[..512]), le(&base[512..]));
    let (q_file, rope, plain) = (le(&q), le(&q_rope), le(&flat));
    let files = ViewFiles {
        kv_rope_compressed: &kv,
        kv_compressed: &latent,
        kv_compressed_plain: &latent,
        k_rope: &tail,
        k_rope_plain: &tail,
        q: &q_file,
        q_rope: &rope,
        q_rope_plain: &plain,
    };
    assert_eq!(check_logical_views(&man.tensors, 1, 1, &files), Ok(()));
    assert_eq!(
        check_logical_views(&man.tensors, 2, 1, &files),
        Err(ViewError::NoRow(Viewed::KvRopeCompressed))
    );
    assert_eq!(
        check_logical_views(&man.tensors, 1, 2, &files),
        Err(ViewError::Row(Viewed::KvRopeCompressed))
    );
    let mut off = base.clone();
    off[515] = 0.5;
    let moved = le(&off[512..]);
    let bad = ViewFiles {
        k_rope: &moved,
        ..files
    };
    assert_eq!(
        check_logical_views(&man.tensors, 1, 1, &bad),
        Err(ViewError::Value(Viewed::KRope, 3))
    );
    let bad = ViewFiles {
        q_rope_plain: &rope,
        ..files
    };
    assert_eq!(
        check_logical_views(&man.tensors, 1, 1, &bad),
        Err(ViewError::Flat(Viewed::QRope))
    );
    let bad = ViewFiles {
        q: &kv,
        ..files
    };
    assert_eq!(
        check_logical_views(&man.tensors, 1, 1, &bad),
        Err(ViewError::File(Viewed::Q, FileError::FileBytes))
    );
}

/// A Q4_K block's codes: the scale and min of a sub-block and the nibble of a
/// value.
#[test]
fn q4k_codes_are_the_blocks() {
    let mut block = vec![0u8; 144];
    block[0..2].copy_from_slice(&0x3c00u16.to_le_bytes());
    block[2..4].copy_from_slice(&0x3800u16.to_le_bytes());
    // Sub-block 0: scale 0x2a, min 0x15; the upper bits belong to sub-block 4.
    block[4] = 0x2a | 0x40;
    block[8] = 0x15 | 0x80;
    block[12] = 0x53;
    block[16] = 0xc7;
    let t = q4k_parts(&block);
    assert_eq!(t.len(), 256);
    assert_eq!((t[0].d, t[0].dmin), (0x3c00, 0x3800));
    assert_eq!((t[0].scale, t[0].min, t[0].q), (0x2a, 0x15, 0x7));
    assert_eq!(t[32].q, 0xc);
    assert_eq!((t[128].scale, t[128].min), (0x13, 0x25));
}

/// The lines of a set with layer 0's attention.
fn attn_lines() -> Vec<String> {
    let r = |name: &str, ty: &str, ne: [u64; 4], s0: &str, s1: &str| {
        let bytes = ne.iter().product::<u64>() * 4;
        format!(
            "tensor\t{name}\t0\t{ty}\t{}\t{}\t{}\t{}\t{bytes}\t0\tX\t1\t0\t{s0}\t{s1}",
            ne[0], ne[1], ne[2], ne[3]
        )
    };
    vec![
        r("Qcur-0 (reshaped)", "f32", [128, 2, 1, 1], "-", "-"),
        r("Kcur-0 (reshaped)", "f32", [128, 1, 1, 1], "-", "-"),
        r("Vcur-0", "f32", [128, 1, 1, 1], "-", "-"),
        r("Qcur_normed-0", "f32", [128, 2, 1, 1], "Qcur-0 (reshaped)", "gq"),
        r("Kcur_normed-0", "f32", [128, 1, 1, 1], "Kcur-0 (reshaped)", "gk"),
        r("Qcur_roped-0", "f32", [128, 2, 1, 1], "Qcur_normed-0", "pos"),
        r("Kcur_roped-0", "f32", [128, 1, 1, 1], "Kcur_normed-0", "pos"),
        r("cache_k_l0 (view) (copy of Kcur_roped-0)", "f16", [128, 1, 1, 1], "-", "-"),
        r("v_cache_view-0 (copy of Vcur-0)", "f16", [128, 1, 1, 1], "-", "-"),
        "int\tpos\t0\tinput\ti32\ti32\tflat\t1\t4\t9\t9\tpos.0.input.i32".to_string(),
    ]
}

/// A layer's attention rows, and each way they do not read.
#[test]
fn attention_rows_read_through_their_plan() {
    let man = manifest(&attn_lines());
    let plan = attn_plan(&man, 0).unwrap().expect("layer 0");
    assert_eq!(attn_plan(&man, 1), Ok(None));
    let q = le(&[0.5; 256]);
    let k = le(&[0.25; 128]);
    let half = le(&[1.0; 128]);
    let files = AttnFiles {
        pos: &9i32.to_le_bytes(),
        q: &q,
        k: &k,
        v: &k,
        q_normed: &q,
        k_normed: &k,
        q_roped: &q,
        k_roped: &k,
        k_cache: &half,
        v_cache: &half,
    };
    let rows = AttnRows::read(&man, &plan, &files).unwrap();
    assert_eq!((rows.m, rows.n_head, rows.n_kv), (1, 2, 1));
    assert_eq!(rows.pos, [9]);
    assert_eq!(rows.q.len(), 256);
    assert_eq!(rows.k_rows, [0x3c00; 128]);
    let wrong = AttnFiles { k: &q, ..files };
    assert!(matches!(
        AttnRows::read(&man, &plan, &wrong),
        Err(AttnError::File(Part::K, _))
    ));
    let wrong = AttnFiles {
        pos: &8i32.to_le_bytes(),
        ..files
    };
    assert!(matches!(
        AttnRows::read(&man, &plan, &wrong),
        Err(AttnError::Positions(FileError::Sum))
    ));
    let mut lines = attn_lines();
    lines.remove(6);
    assert_eq!(
        attn_plan(&manifest(&lines), 0),
        Err(PlanError::NoRow(Part::KRoped))
    );
    let mut lines = attn_lines();
    lines.pop();
    assert_eq!(
        attn_plan(&manifest(&lines), 0),
        Err(PlanError::NoPositionRow)
    );
    let mut older = manifest(&attn_lines());
    older.tensors[5].src1 = None;
    assert_eq!(attn_plan(&older, 0), Err(PlanError::NoPositions));
    let mut older = manifest(&attn_lines());
    older.tensors[4].src1 = None;
    assert_eq!(
        attn_plan(&older, 0),
        Err(PlanError::NoGain(Part::KNormed))
    );
    assert_eq!(
        f16_logical_bits(&man.tensors[7], &half).unwrap(),
        [0x3c00; 128]
    );
    assert!(f16_logical_bits(&man.tensors[7], &le(&[0.1; 128])).is_err());
    assert!(!sets().is_empty() && !step_sets().is_empty());
}
