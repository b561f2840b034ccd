use gpu_gates::vision::{
    block_name, forced_blocks, judge, oracle_taps, pin_of, read_set, ruler, tap_file, wanted_taps,
    Img, Judged, LineError, SetError, Stats, VisionSet,
};
use gpu_gates::vision_rules::{
    aligner_rows, column_block, exact_check, gate_pairs, grid_place, identity, image_ok,
    missing_tap, near_check, products, rule_tap_name, sweep, sweep_inputs, sweep_rows,
    with_rotated, worst_rows, ImageChecks, Sizes,
};

const HEAD: &str = "# checkpoint\tds41v dba1be0a40aa45a94ad051997016db3960a90277\n\
# sensitivity columns\ttap max_rel rms_rel differ\tx\n";

fn set(body: &str) -> Result<VisionSet, SetError> {
    read_set(&format!("{HEAD}{body}# complete\t1\n"))
}

fn good() -> VisionSet {
    set(
        "# mmproj\t/m.gguf\n\
         # sensitivity\tblk1\t0.1\t0.02\t0.3\n\
         # sensitivity\tblk1\t0.1\t0.04\t0.3\n\
         image\tzebra.png\ta\tb\tc\td\te\t4\t6\n\
         image\tgrad-448.png\ta\tb\tc\td\te\t2\t3\n\
         image\tant.png\ta\tb\tc\td\te\t5\t5\n\
         file\tgrad-448.embed.bf16\tx\tbf16\t6x8\n\
         file\tgrad-448.blk0.bf16\tx\tbf16\t6x8\n\
         file\tgrad-448.blk2.bf16\tx\tbf16\t6x8\n\
         file\tgrad-448.vit.bf16\tx\tbf16\t6x8\n\
         file\tother\tx\tf32\t6x8\n\
         file\tcube\tx\tbf16\t1x2x3\n",
    )
    .unwrap()
}

/// A set's manifest: the images in order, the files and the distances.
#[test]
fn a_set_lists_its_images_in_order() {
    let s = good();
    assert_eq!(s.mmproj, "/m.gguf");
    let names: Vec<&str> = s.images.iter().map(|i| i.name.as_str()).collect();
    assert_eq!(names, ["grad-448.png", "ant.png", "zebra.png"]);
    assert_eq!((s.images[2].n_vit_h, s.images[2].n_vit_w), (4, 6));
    assert_eq!(s.files.len(), 4);
    assert!(s.holds_file("grad-448.vit.bf16") && !s.holds_file("other"));
    assert_eq!(
        s.sensitivity_of("blk1").map(|i| s.sensitivity[i].rms_rel.as_str()),
        Some("0.04")
    );
    assert_eq!(s.sensitivity_of("vit"), None);
    let img = Img {
        name: "noext".to_string(),
        n_vit_h: 1,
        n_vit_w: 1,
    };
    assert_eq!((img.stem(), s.images[0].stem()), ("noext".to_string(), "grad-448".to_string()));
}

/// Each way a set's manifest does not read.
#[test]
fn a_bad_set_is_refused_by_kind() {
    assert!(matches!(read_set(HEAD), Err(SetError::Incomplete)));
    assert!(matches!(
        read_set("# complete\t1\n"),
        Err(SetError::NoCheckpoint)
    ));
    assert!(matches!(
        read_set("# checkpoint\tother\n# complete\t1\n"),
        Err(SetError::Stale)
    ));
    let ckpt = HEAD.lines().next().unwrap();
    assert!(matches!(
        read_set(&format!("{ckpt}\n# complete\t1\n")),
        Err(SetError::NoColumns)
    ));
    assert!(matches!(
        read_set(&format!(
            "{ckpt}\n# sensitivity columns\ttap rms\n# complete\t1\n"
        )),
        Err(SetError::Columns)
    ));
    assert!(matches!(set(""), Err(SetError::NoEncoder)));
    assert!(matches!(
        set("# mmproj\n"),
        Err(SetError::Line(2, LineError::Field))
    ));
    assert!(matches!(
        set("image\ta\tb\tc\td\te\tf\tx\t1\n"),
        Err(SetError::Line(2, LineError::Number))
    ));
    assert!(matches!(
        set("file\ta\tb\tbf16\t2xq\n"),
        Err(SetError::Line(2, LineError::Number))
    ));
    assert!(matches!(
        set("# sensitivity\ta\tb\tc\n"),
        Err(SetError::Line(2, LineError::Number))
    ));
}

/// The taps, forced blocks and names of an image.
#[test]
fn taps_come_in_chain_order() {
    let s = good();
    assert_eq!(
        oracle_taps(&s, "grad-448"),
        ["embed", "blk0", "blk2", "vit"]
    );
    assert!(oracle_taps(&s, "ant").is_empty());
    let f = forced_blocks(&s, "grad-448", 32);
    assert_eq!(f.len(), 1);
    assert_eq!((f[0].block, f[0].input.as_str()), (0, "grad-448.embed.bf16"));
    let w = wanted_taps(&s, "grad-448", 32);
    assert_eq!(w[4..], ["blk0.resid1", "aligner.x", "blk31"]);
    assert_eq!(wanted_taps(&s, "ant", 32).len(), 0);
    assert_eq!(block_name(7), "blk7");
    assert_eq!(tap_file("a", "vit"), "a.vit.bf16");
}

/// A tap has one rule: a pin or a ruler.
#[test]
fn a_tap_has_one_rule() {
    assert_eq!(ruler("blk0"), None);
    assert_eq!(ruler("blk1"), Some("blk1"));
    assert_eq!(ruler("blk0.norm1"), None);
    assert_eq!(ruler("aligner.h"), Some("aligner"));
    assert_eq!(ruler("vit"), Some("vit"));
    assert_eq!(ruler("forced.blk3"), None);
    let p = pin_of("embed").unwrap();
    assert_eq!(
        (p.max_rel, p.rms_rel, p.differ),
        (0.00371f64.to_bits(), 2.4e-05f64.to_bits(), 0.00016f64.to_bits())
    );
    let p = pin_of("forced.aligner").unwrap();
    assert_eq!(p.differ, 0.48929f64.to_bits());
    for b in 0..32 {
        assert!(pin_of(&format!("forced.blk{b}")).is_some());
        assert_eq!(ruler(&format!("blk{b}")).is_some(), b >= 1);
        assert_eq!(pin_of(&format!("blk{b}")).is_some(), b == 0);
    }
    let at = |x: f64| x.to_bits();
    let fine = Stats {
        max_rel: at(0.0),
        rms_rel: at(0.001),
        differ: at(0.0),
    };
    assert_eq!(judge("vit", &fine, Some(at(0.002))), Judged::Ruled(true));
    assert_eq!(judge("vit", &fine, Some(at(0.0005))), Judged::Ruled(false));
    assert_eq!(judge("vit", &fine, None), Judged::NoRow);
    assert_eq!(judge("embed", &fine, None), Judged::Pinned(false));
    assert_eq!(judge("blk0", &fine, None), Judged::Pinned(true));
    assert_eq!(judge("other", &fine, None), Judged::NoPin);
    assert!(Judged::Ruled(true).passes() && !Judged::NoRow.passes());
    let nan = Stats {
        max_rel: at(f64::NAN),
        ..fine
    };
    assert_eq!(judge("blk0", &nan, None), Judged::Pinned(false));
}

/// Exact and near rules over bf16 bits.
#[test]
fn rules_compare_bits() {
    assert_eq!(exact_check(&[1, 2, 3], &[1, 2, 3]), 0);
    assert_eq!(exact_check(&[1, 2, 3], &[1, 9]), 2);
    let n = near_check(&[10, 20, 0x8000], &[11, 20, 0x0000], 2);
    assert_eq!((n.differ, n.far, n.pass), (2, 1, false));
    let n = near_check(&[10, 20], &[11, 20], 1);
    assert!(n.pass);
    assert!(!near_check(&[10], &[10, 20], 1).pass);
}

/// The sweep sees every bf16 value in [-8, 8] once.
#[test]
fn the_sweep_covers_its_range_once() {
    let xs = sweep_inputs();
    assert_eq!(xs.len(), 33282);
    let mut seen = vec![0u32; 65536];
    for &x in &xs {
        seen[usize::from(x)] += 1;
    }
    for x in 0..65536usize {
        let v = f32::from_bits((x as u32) << 16);
        let inside = v.abs() <= 8.0;
        assert_eq!(seen[x], u32::from(inside), "{x:#06x}");
    }
    let rows = sweep_rows(&[5, 6]);
    assert_eq!(rows, [5, 0, 6, 0]);
    let mut ys = xs.clone();
    ys[16641] = 0;
    ys[16640] = 1;
    let id = identity(&xs, &ys);
    assert_eq!((id.bad_normal, id.bad_tiny, id.n_tiny), (1, 1, 256));
    let normal = [0x3f80u16, 0xbf80, 0x4000, 0x0001];
    let want = [0x3f58u16, 0xbe22, 0x3ffa, 0x0001];
    let close = [false; 4];
    let s = sweep(&normal, &want, &want, &close);
    assert!(s.pass && s.differ == 0);
    let s = sweep(&normal, &[0x3f59, 0xbe22, 0x3fff, 0x0009], &want, &close);
    assert_eq!((s.differ, s.outside, s.pass), (2, 1, false));
    let s = sweep(
        &normal,
        &[0x3f59, 0xbe22, 0x3fff, 0x0009],
        &want,
        &[false, false, true, false],
    );
    assert!(s.pass);
}

/// The taps and products the rules of block 0 read.
#[test]
fn block_0_names_its_products() {
    let have: Vec<String> = (0..18).map(|i| rule_tap_name(i, 32)).collect();
    assert_eq!(have[13], "blk31");
    assert_eq!(missing_tap(&have, 32), None);
    assert_eq!(missing_tap(&have[..7], 32), Some(7));
    let s = Sizes {
        dim: 8,
        ff: 12,
        out_dim: 20,
        patch: 14,
        downsample: 3,
    };
    let p = products(&s, 4, 5);
    let shape: Vec<(u64, u64, u64)> = p.iter().map(|x| (x.m, x.n, x.k)).collect();
    assert_eq!(
        shape,
        [
            (20, 8, 588),
            (20, 24, 8),
            (20, 8, 8),
            (20, 24, 8),
            (20, 8, 12),
            (4, 20, 72),
            (4, 20, 20)
        ]
    );
    assert_eq!(p[0].name, "patch_embed");
    assert_eq!(aligner_rows(4, 5, 3), 4);
}

/// The attention reads back its rotation; the gated pairs stand side by side.
#[test]
fn rotations_read_back() {
    let qkv: Vec<u16> = (0..12).collect();
    let q: Vec<u16> = vec![100, 101, 102, 103];
    let k: Vec<u16> = vec![200, 201, 202, 203];
    let r = with_rotated(&qkv, &q, &k, 2);
    assert_eq!(r, [100, 101, 200, 201, 4, 5, 102, 103, 202, 203, 10, 11]);
    assert_eq!(column_block(&r, 6, 0, 2), q);
    assert_eq!(column_block(&r, 6, 2, 2), k);
    assert_eq!(column_block(&r, 6, 4, 2), column_block(&qkv, 6, 4, 2));
    assert_eq!(
        gate_pairs(&[1, 2, 3, 4, 5, 6, 7, 8], 2),
        [(1, 3), (2, 4), (5, 7), (6, 8)]
    );
    let c = ImageChecks {
        patches: true,
        twice: true,
        plain_launches: 9,
        tapped_launches: 9,
    };
    assert!(image_ok(&c, 9) && !image_ok(&c, 8));
    assert_eq!(worst_rows(&[3, 9, 9, 1], 2), [1, 2]);
    assert_eq!(worst_rows(&[3, 9], 4), [1, 0]);
    assert_eq!(grid_place(13, 5), (2, 3));
}

/// The widest of a tap takes the larger of each distance.
#[test]
fn the_widest_of_a_tap_takes_the_larger() {
    let at = |x: f64| x.to_bits();
    let a = Stats {
        max_rel: at(0.5),
        rms_rel: at(0.125),
        differ: at(f64::NAN),
    };
    let b = Stats {
        max_rel: at(0.25),
        rms_rel: at(2.0),
        differ: at(0.75),
    };
    let w = Stats {
        max_rel: at(0.5),
        rms_rel: at(2.0),
        differ: at(0.75),
    };
    assert_eq!(a.widened(b), w);
    assert_eq!(b.widened(a), w);
}
