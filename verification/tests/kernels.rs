use gpu_gates::manifest::RefRow;
use gpu_gates::model_file::GgmlType;
use gpu_gates::planes::{
    agree_on_equal, append, blank, clear_position, ctx_for, gather, position_written, same_halves,
    speaks, within, CachePos, NormSite, RopeSite, HEAD, NORM_BAND, ROPE_BAND, SENTINEL,
};
use gpu_gates::rank::top;
use gpu_gates::rawx::{floor, measure, sites, weight_rows, worst, Measured, Skip};
use gpu_gates::real_x::{
    chains, gemv_kernel, ik_to_ours, is_stack, packed_words, prove_chain, prove_swiglu,
    replay_held, row_words, rows_note, spread, total_rows, ChainError, Driven, SwigluError,
};
use gpu_gates::router::{
    first_tokens, fused_equal, fused_ok, graph_ok, layer_fits, nan_caught, norm_tally,
    routed_equal, routes_as_the_kernel, row_count, tally, tie_held, ties, token_check, Fused,
    NormRouted, Q8Planes, Routed, Score, TokenCheck, BAND,
};
use gpu_gates::set::RefManifest;
use gpu_gates::text::{
    chars_of, float_text, lines_of, parse_ids, parse_integer, parse_number, push_decimal,
    split_at_each, string_of, trim, words_of,
};

fn bits(v: &[f32]) -> Vec<u32> {
    v.iter().map(|x| x.to_bits()).collect()
}

fn rows(lines: &[&str]) -> Vec<RefRow> {
    RefManifest::parse(&(lines.join("\n") + "\n")).unwrap().tensors
}

/// Reading back gives what was appended, and a token past the plane is appended
/// nowhere.
#[test]
fn an_append_reads_back() {
    let (n_kv, ctx) = (2, 4);
    let pos = [3u32, 1];
    let rows: Vec<u16> = (0..2 * n_kv * HEAD).map(|i| i as u16).collect();
    let plane = blank(n_kv * ctx * HEAD);
    let full = append(&plane, &rows, &pos, n_kv, ctx);
    assert_eq!(gather(&full, &pos, n_kv, ctx), rows);
    assert_eq!(full[3 * HEAD], 0);
    assert_eq!(full[(ctx + 3) * HEAD], HEAD as u16);
    assert_eq!(full[HEAD], 2 * HEAD as u16);
    assert_eq!(full[0], SENTINEL);
    assert!(position_written(&full, ctx, 1) && !position_written(&full, ctx, 0));
    let past = append(&plane, &rows, &[3, 4], n_kv, ctx);
    assert_eq!(past, clear_position(&full, ctx, 1));
    assert_eq!(ctx_for(&pos), 4);
    assert_eq!(ctx_for(&[]), 1);
}

/// The layers' verdicts take every claim.
#[test]
fn a_layer_passes_on_every_claim() {
    assert_eq!(f32::from_bits(NORM_BAND), 10.0 * 2.0f32.powi(-24));
    assert_eq!(f32::from_bits(ROPE_BAND), 20.0 * 2.0f32.powi(-24));
    let site = RopeSite {
        exact: true,
        planes_exact: true,
        rerun: true,
        table_is_recipe: true,
        sim_ulps: 1,
        append_same: true,
        rel: ROPE_BAND,
        v_same: true,
        k_on_equal: true,
    };
    assert!(site.passes());
    assert!(!RopeSite { sim_ulps: 2, ..site }.passes());
    assert!(!RopeSite {
        rel: ROPE_BAND + 1,
        ..site
    }
    .passes());
    assert!(!RopeSite {
        rel: f32::NAN.to_bits(),
        ..site
    }
    .passes());
    let norm = NormSite {
        exact: true,
        rerun: true,
        sim_q: 4,
        n_q: 4,
        sim_k: 2,
        n_k: 2,
        rel_q: 0,
        rel_k: NORM_BAND,
    };
    assert!(norm.passes() && !NormSite { sim_k: 1, ..norm }.passes());
    assert!(speaks(true, 0, 9) && speaks(true, 8, 9) && !speaks(true, 4, 9) && speaks(false, 4, 9));
    assert!(within(0.5f32.to_bits(), 0.5f32.to_bits()));
    let c = CachePos {
        clean_before: true,
        clean_after: true,
        named: true,
        clean_wrote: true,
        planes: true,
        heads: true,
        clean_again: true,
    };
    assert!(c.held() && !CachePos { named: false, ..c }.held());
    assert!(agree_on_equal(&[1, 2], &[1, 3], &[5, 6], &[5, 7]));
    assert!(!agree_on_equal(&[1, 2], &[1, 2], &[5, 6], &[5, 7]));
    assert_eq!(same_halves(&[1, 2, 3], &[1, 9, 3, 4]), 2);
}

/// Every tie's ids are its ranking's.
#[test]
fn ties_are_their_rankings() {
    let all = ties();
    assert_eq!(all.len(), 3);
    for t in &all {
        assert_eq!(t.logits.len(), 128);
        let ids = top(&t.logits, 8);
        assert!(tie_held(t, &ids, &ids, BAND), "{}: {ids:?}", t.name);
        assert!(!tie_held(t, &ids, &ids, BAND + 1));
        assert!(!tie_held(t, &ids, &ids[..7], 0) && !tie_held(t, &[0, 1], &ids, 0));
    }
    assert_eq!(all[1].want, [100, 90, 64, 33, 5, 127, 70, 1]);
}

/// A launch's results compared bit for bit, and the tokens' tally.
#[test]
fn routings_compare_bit_for_bit() {
    let r = |ids: &[u32]| Routed {
        probs: bits(&[0.5, 0.25]),
        ids: ids.to_vec(),
        weights: bits(&[1.0]),
    };
    assert!(routed_equal(&r(&[1]), &r(&[1])) && !routed_equal(&r(&[1]), &r(&[2])));
    let f = Fused {
        logits: vec![7; 8 * 128],
        routed: Routed {
            probs: vec![1; 8 * 128],
            ids: vec![2; 64],
            weights: vec![3; 64],
        },
    };
    assert!(fused_equal(&f, &f));
    let one = first_tokens(f, 1);
    assert_eq!((one.logits.len(), one.routed.ids.len()), (128, 8));
    assert_eq!(gpu_gates::router::column(&[1, 2, 3, 4, 5, 6], 3, 2, 1), [2, 4, 6]);
    assert!(routes_as_the_kernel(128, 8, Score::Softmax, true));
    assert!(!routes_as_the_kernel(128, 8, Score::Other, true));
    assert!(layer_fits(128, 5, 40, 40) && !layer_fits(128, 5, 40, 39));
    assert_eq!(row_count(12, 4), Some(3));
    assert_eq!((row_count(13, 4), row_count(0, 4)), (None, None));
    let ok = TokenCheck {
        rerun: true,
        ids_exact: true,
        probs_err: BAND,
        weights_err: 0,
        ik_same: true,
    };
    let off = TokenCheck {
        ik_same: false,
        ..ok
    };
    let t = tally(&[ok, off, ok]);
    assert_eq!((t.tokens, t.ik_mismatch, t.ok), (3, 1, false));
    assert!(tally(&[ok]).ok);
    assert_eq!(BAND, 1e-6f32.to_bits());
    assert!(graph_ok(true, 1, &[0, 0]) && !graph_ok(true, 1, &[0, 1]) && !graph_ok(true, 2, &[]));
    assert!(nan_caught(Some(3), Some(3), 0) && !nan_caught(None, None, 0));
    assert!(!nan_caught(Some(3), Some(4), 0) && !nan_caught(Some(3), Some(3), 1));
}

/// A token's check, a fused launch and a norm-fused layer, each bit for bit.
#[test]
fn launches_are_held_to_what_they_replace() {
    let a = Routed {
        probs: vec![1, 2],
        ids: vec![5],
        weights: vec![3],
    };
    let c = token_check(&a, &a.clone(), &[5], &[6], BAND, 0);
    assert!(c.rerun && c.ids_exact && !c.ik_same);
    let mut want = Fused::none();
    want.add_token(&[10, 11], &a);
    want.add_token(&[12, 13], &a);
    assert_eq!(want.logits, [10, 11, 12, 13]);
    assert_eq!((&want.routed.ids[..], want.routed.probs.len()), (&[5, 5][..], 4));
    assert!(fused_ok(&want.clone(), &want, 0) && !fused_ok(&want.clone(), &want, 1));
    assert!(!fused_ok(&Fused::none(), &want, 0));
    let one = |d: u32| NormRouted {
        act: Q8Planes {
            q3: vec![1],
            q4: vec![2],
            q6: vec![3],
            s8: vec![4],
            d8: vec![d],
        },
        routed: Fused::none(),
    };
    let t = norm_tally(&[one(1), one(2)], &[one(1), one(3)], &[0, 0]);
    assert_eq!((t.same, t.tickets_zero, t.pass), (1, true, false));
    let t = norm_tally(&[one(1)], &[one(1)], &[2]);
    assert_eq!((t.same, t.tickets_zero, t.pass), (1, false, false));
    assert!(norm_tally(&[one(1)], &[one(1)], &[0]).pass);
}

/// The floor's sites and when one is measured.
#[test]
fn sites_are_measured_on_their_geometry() {
    let all = sites();
    assert_eq!(all.len(), 13);
    assert_eq!(all[0].x_file, "attn_norm-1.0.f32");
    assert_eq!(all[0].tensor, "blk.1.attn_q.weight");
    assert_eq!(all[11].x_file, "ffn_moe_gate_par-13.0.f32");
    assert_eq!((all[11].ty, all[11].k, all[11].block), (GgmlType::Q5_0, 1408, 32));
    assert_eq!(all[12].name, "lm_head");
    let s = &all[0];
    let dims = [2048u64, 3072];
    assert_eq!(
        measure(s, 2 * 4 * 2048, GgmlType::Q3_K, &dims, 2048 * 880, 880),
        Ok(Measured {
            cols: 2,
            rows: 2048
        })
    );
    assert_eq!(
        measure(s, 100, GgmlType::Q3_K, &dims, 2048 * 880, 880),
        Err(Skip::Columns)
    );
    assert_eq!(
        measure(s, 4 * 2048, GgmlType::Q4_K, &dims, 2048 * 880, 880),
        Err(Skip::Tensor)
    );
    assert_eq!(
        measure(s, 4 * 2048, GgmlType::Q3_K, &dims[..1], 2048 * 880, 880),
        Err(Skip::Tensor)
    );
    assert_eq!(
        measure(s, 4 * 2048, GgmlType::Q3_K, &dims, 2048 * 880 - 1, 880),
        Err(Skip::Rows)
    );
    assert_eq!(weight_rows(&[1, 2, 3, 4, 5], 2, 2), [1, 2, 3, 4]);
    let cols = bits(&[0.1, 0.5, 0.2, 0.5]);
    assert_eq!(worst(&cols), 3);
    assert_eq!(worst(&[]), 0);
    assert_eq!(floor(&cols), 0.5f32.to_bits());
    assert_eq!(floor(&bits(&[f32::NAN, 0.25])), 0.25f32.to_bits());
}

/// A chain proves itself before a number is read.
#[test]
fn chains_prove_themselves() {
    let all = chains();
    assert_eq!(all.len(), 13);
    assert_eq!(
        (all[4].label.as_str(), all[4].output.as_str()),
        ("attn_kv_a_mqa L=1", "kv_rope_compressed-1")
    );
    assert_eq!(all[12].row_cap, Some(4096));
    let r = rows(&[
        "tensor\tattn_norm-0\t0\tf32\t8\t2\t1\t1\t64\t0\tMUL",
        "tensor\tq-0\t0\tf32\t6\t2\t1\t1\t48\t0\tMUL_MAT",
        "tensor\tffn_up_gate-0\t0\tf32\t4\t2\t1\t1\t32\t0\tFUSED_UP_GATE\t1\t0\tup.w\tgate.w",
    ]);
    let prove = |len: usize, cap: Option<usize>, k: u64| {
        prove_chain(len, 10, k, 6, cap, &r[0], &r[1], "MUL_MAT")
    };
    assert_eq!(prove(60, None, 8), Ok(Driven { rows: 6, m: 2 }));
    assert_eq!(prove(40, Some(4), 8), Ok(Driven { rows: 4, m: 2 }));
    assert_eq!(prove(59, None, 8), Err(ChainError::Weight));
    assert_eq!(prove(60, None, 9), Err(ChainError::Input));
    assert_eq!(
        prove_chain(60, 10, 8, 7, Some(1), &r[0], &r[1], "MUL_MAT"),
        Err(ChainError::Output)
    );
    let many = rows(&["tensor\tx\t0\tf32\t8\t9\t1\t1\t288\t0\tMUL"]);
    assert_eq!(
        prove_chain(60, 10, 8, 6, None, &many[0], &r[1], "MUL_MAT"),
        Err(ChainError::Tokens)
    );
    assert_eq!(prove_swiglu(&r[2], &r[0], "gate.w", "up.w"), Ok([8, 4]));
    assert_eq!(
        prove_swiglu(&r[2], &r[0], "up.w", "gate.w"),
        Err(SwigluError::Operands)
    );
    assert_eq!(
        prove_swiglu(&r[1], &r[0], "gate.w", "up.w"),
        Err(SwigluError::Op)
    );
    assert_eq!(
        prove_swiglu(&r[2], &many[0], "gate.w", "up.w"),
        Err(SwigluError::Dims)
    );
    assert_eq!(total_rows(&[5, 3, 2]), 6);
    assert_eq!(row_words(12, 5), None);
    assert_eq!(row_words(12, 4), Some(3));
    assert_eq!(gemv_kernel(GgmlType::Q6_K), Some("q6k"));
    assert_eq!(gemv_kernel(GgmlType::F32), None);
    assert_eq!(packed_words(10944, true), 256 * 11 + 2 * 342);
    assert_eq!(packed_words(1408, false), 256 * 2 + 44);
    assert_eq!(rows_note(4096, 102_400, Some(4096)), "4096/102400");
    assert_eq!(rows_note(64, 64, Some(4096)), "64");
}

/// Reshaping a dump and back, a family's spread, and the packaging probe.
#[test]
fn orders_and_spreads() {
    let ik = [1, 2, 3, 4, 5, 6];
    let ours = ik_to_ours(&ik, 3, 2);
    assert_eq!(ours, [1, 4, 2, 5, 3, 6]);
    assert_eq!(ik_to_ours(&ours, 2, 3), ik);
    let s = spread(&bits(&[3.0, 1.0, 4.0, 2.0])).unwrap();
    assert_eq!(
        (s.max, s.mid_low, s.mid_high),
        (4.0f32.to_bits(), 2.0f32.to_bits(), 3.0f32.to_bits())
    );
    let s = spread(&bits(&[3.0, -1.0, 4.0])).unwrap();
    assert_eq!((s.mid_low, s.mid_high), (3.0f32.to_bits(), 3.0f32.to_bits()));
    assert_eq!(spread(&[]), None);
    assert!(is_stack(55296 * 1152) && !is_stack(55296 * 1152 + 4));
    assert!(replay_held(&[1], &[1], 2, true) && !replay_held(&[1], &[1], 3, true));
}

/// The text functions agree with the standard library's.
#[test]
fn texts_read_as_the_standard_library_reads_them() {
    let s = "a\tb\r\n\n c  d \u{2003}e\nlast";
    let own: Vec<String> = lines_of(&chars_of(s)).iter().map(|l| string_of(l)).collect();
    let std: Vec<String> = s.lines().map(str::to_string).collect();
    assert_eq!(own, std);
    let own: Vec<String> = words_of(&chars_of(s)).iter().map(|l| string_of(l)).collect();
    let std: Vec<String> = s.split_whitespace().map(str::to_string).collect();
    assert_eq!(own, std);
    let own: Vec<String> = split_at_each(&chars_of("x,,y,"), ',')
        .iter()
        .map(|l| string_of(l))
        .collect();
    assert_eq!(own, ["x", "", "y", ""]);
    assert_eq!(string_of(&trim(&chars_of(" \t x y\n"))), "x y");
    for t in ["0", "+7", "18446744073709551615", "18446744073709551616", "", "+", "-1", "1x", "٣"] {
        assert_eq!(
            parse_number(&chars_of(t), u64::MAX),
            t.parse::<u64>().ok(),
            "{t:?}"
        );
        assert_eq!(parse_integer(&chars_of(t)), t.parse::<i64>().ok(), "{t:?}");
    }
    for t in [
        "1", "-2.5", "+.5", "5.", ".", "1e9", "1e", "1e-3", "inf", "-Infinity", "NaN", "nano", "",
        "0x1", "1_0", " 1",
    ] {
        assert_eq!(
            float_text(&chars_of(t)),
            t.parse::<f64>().is_ok(),
            "{t:?}"
        );
    }
    assert_eq!(parse_ids(&chars_of("1, 2"), true), Some(vec![1, 2]));
    assert_eq!(parse_ids(&chars_of("1, 2"), false), None);
    let mut cs = Vec::new();
    push_decimal(&mut cs, u64::MAX);
    assert_eq!(string_of(&cs), u64::MAX.to_string());
}
