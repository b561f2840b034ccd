use gpu_gates::kld::{
    compare_tops, FieldError, KldBase, KldError, Pair, PairError, Record, ResultLine, HEADER_BYTES,
    RECORD_HEAD_BYTES, TOP_LEVEL,
};

/// Nats below the maximum that level 0 stands for.
const FLOOR_NATS: f32 = 16.0;

/// The quantizer for one position: the record's scale, least log-probability and
/// levels.
fn quantize(logits: &[f32]) -> (f32, f32, Vec<u16>) {
    let max = logits.iter().copied().fold(f32::NEG_INFINITY, f32::max);
    let min = logits
        .iter()
        .copied()
        .fold(f32::INFINITY, f32::min)
        .max(max - FLOOR_NATS);
    let sum: f64 = logits.iter().map(|&l| f64::from((l - max).exp())).sum();
    let lse = sum.ln() as f32;
    let scale = (max - min) / f32::from(TOP_LEVEL);
    let inv = 1.0 / scale;
    let levels = logits
        .iter()
        .map(|&l| {
            if l > min {
                (inv * (l - min)).round() as u16
            } else {
                0
            }
        })
        .collect();
    (scale, min - max - lse, levels)
}

/// A base file: `ids` in chunks of `n_ctx`, then one record per scored position.
fn file_of(n_ctx: usize, ids: &[i32], rows: &[&[f32]]) -> Vec<u8> {
    let (n_vocab, n_chunk) = (rows[0].len(), ids.len() / n_ctx);
    assert_eq!(rows.len(), n_chunk * (n_ctx - 1 - n_ctx / 2));
    let mut b = b"_logits_".to_vec();
    for v in [n_ctx, n_vocab, n_chunk] {
        let v = i32::try_from(v).expect("a test file's sizes fit in i32");
        b.extend_from_slice(&v.to_le_bytes());
    }
    for v in ids {
        b.extend_from_slice(&v.to_le_bytes());
    }
    for row in rows {
        let (scale, mlp, levels) = quantize(row);
        b.extend_from_slice(&scale.to_le_bytes());
        b.extend_from_slice(&mlp.to_le_bytes());
        for q in levels.iter().copied().chain(vec![0u16; n_vocab % 2]) {
            b.extend_from_slice(&q.to_le_bytes());
        }
    }
    b
}

/// A file of one chunk of four ids over a three-entry vocabulary (an odd one, so
/// its record carries the pad) scored at position 2 against id 1.
fn tiny_file(ids: [i32; 4], logits: &[f32; 3]) -> Vec<u8> {
    file_of(4, &ids, &[logits])
}

fn log_prob(r: &Record<'_>, tok: u32) -> f64 {
    f64::from(f32::from_bits(r.scale)) * f64::from(r.level(tok))
        + f64::from(f32::from_bits(r.min_log_prob))
}

/// Two files of one text compared position by position: a tie at Q's top level is
/// counted and resolved to the first id; equal rows hold equal records. The
/// longer file is read on the shorter one's chunks, and a file of another
/// `n_ctx`, another vocabulary or other ids is refused by name.
#[test]
fn two_files_compare_to_a_known_kld() {
    let p_rows: [&[f32]; 6] = [
        &[2.0, 0.5, -1.0, -3.0, -18.0],
        &[0.5, 1.0, 0.0, -1.0, -2.0],
        &[0.3, -0.2, 1.1, 0.4, -0.7],
        &[0.0, 0.1, 0.2, 0.3, 0.4],
        &[-1.0, 2.0, 0.0, 0.5, -0.5],
        &[1.0, 0.0, -1.0, 0.0, 1.0],
    ];
    let q_rows: [&[f32]; 3] = [
        &[1.5, 0.7, -0.8, -3.5, -17.0],
        &[1.0, 1.0, 0.0, -1.0, -2.0],
        &[0.3, -0.2, 1.1, 0.4, -0.7],
    ];
    let ids0 = [1, 2, 3, 4, 0, 1, 2, 3];
    let ids = [ids0, [4, 3, 2, 1, 0, 4, 3, 2]].concat();
    let p_bytes = file_of(8, &ids, &p_rows);
    let q_bytes = file_of(8, &ids0, &q_rows);
    let p = KldBase::open_own_vocab(&p_bytes).unwrap();
    let q = KldBase::open_own_vocab(&q_bytes).unwrap();

    let pair = Pair::new(&p, &q).unwrap();
    assert_eq!(pair.n_chunk, 1);
    assert_eq!(pair.n_records(), 3);
    let recs: Vec<(Record<'_>, Record<'_>)> =
        (0..pair.n_records()).map(|i| pair.records(i)).collect();
    for (k, (pr, qr)) in recs.iter().enumerate() {
        assert_eq!((pr.chunk, pr.pos), (0, 4 + k));
        assert_eq!((qr.chunk, qr.pos), (0, 4 + k));
        assert_eq!(i64::from(pr.next), i64::from(ids0[5 + k]));
        // The stored distribution's KLD against the logits' own, within the
        // band half a step of each record derives.
        let exact_p = log_softmax(p_rows[k]);
        let exact_q = log_softmax(q_rows[k]);
        let ep = f64::from(f32::from_bits(pr.scale)) / 2.0 + 1e-5;
        let eq = f64::from(f32::from_bits(qr.scale)) / 2.0 + 1e-5;
        let (mut kld, mut exact, mut band) = (0.0, 0.0, 0.0);
        for i in 0..5u32 {
            let (a, b) = (exact_p[i as usize], exact_q[i as usize]);
            kld += log_prob(pr, i).exp() * (log_prob(pr, i) - log_prob(qr, i));
            exact += a.exp() * (a - b);
            band += a.exp() * (ep.exp_m1() * (a - b).abs() + ep.exp() * (ep + eq));
        }
        assert!(
            (kld - exact).abs() <= band,
            "position {k}: kld {kld} vs exact {exact}, band {band:.3e}"
        );
    }
    let t = compare_tops(&recs[1].0, &recs[1].1);
    assert_eq!((t.top_p, t.top_q, t.q_top_count), (1, 0, 2));
    // Equal rows give equal records, so a divergence of exactly 0.
    let (a, b) = &recs[2];
    assert_eq!((a.scale, a.min_log_prob), (b.scale, b.min_log_prob));
    assert_eq!(a.levels, b.levels);

    let same = Pair::new(&p, &p).unwrap();
    assert_eq!(same.n_chunk, 2);
    for i in 0..same.n_records() {
        let (a, b) = same.records(i);
        let t = compare_tops(&a, &b);
        assert_eq!(t.top_p, t.top_q);
        assert_eq!(a.levels, b.levels);
    }

    let ctx_bytes = tiny_file([2, 0, 1, 1], &[0.0, -1.0, -3.0]);
    let ctx = KldBase::open_own_vocab(&ctx_bytes).unwrap();
    assert_eq!(Pair::new(&p, &ctx).err(), Some(PairError::Ctx));
    let row: &[f32] = &[0.0, 1.0, 2.0];
    let small = [0, 1, 2, 0, 1, 2, 0, 1];
    let vocab_bytes = file_of(8, &small, &[row; 3]);
    let vocab = KldBase::open_own_vocab(&vocab_bytes).unwrap();
    assert_eq!(Pair::new(&p, &vocab).err(), Some(PairError::Vocab));
    let mut moved = ids0;
    moved[7] = 0;
    let ids_bytes = file_of(8, &moved, &q_rows);
    let other = KldBase::open_own_vocab(&ids_bytes).unwrap();
    assert!(matches!(Pair::new(&p, &other), Err(PairError::Ids(_))));
}

/// A row's log-probabilities in f64, from the logits.
fn log_softmax(logits: &[f32]) -> Vec<f64> {
    let max = f64::from(logits.iter().copied().fold(f32::NEG_INFINITY, f32::max));
    let sum: f64 = logits.iter().map(|&l| (f64::from(l) - max).exp()).sum();
    logits
        .iter()
        .map(|&l| f64::from(l) - max - sum.ln())
        .collect()
}

/// The reader decodes the layout (the scored position, its id, an NLL within half
/// a step of the exact one, a record that checks) and refuses a file that is not
/// one: a wrong magic, a length its header does not imply, another vocabulary, an
/// id outside it; a record whose top level lost a bit fails its check.
#[test]
fn a_base_file_reads_back_and_a_bad_one_is_refused() {
    let logits = [0.0f32, -1.0, -30.0];
    let good = tiny_file([2, 0, 1, 1], &logits);

    let base = KldBase::open(&good, 3).unwrap();
    assert_eq!((base.n_ctx(), base.n_vocab(), base.n_chunk()), (4, 3, 1));
    assert_eq!(base.tokens(), &[2, 0, 1, 1]);
    assert_eq!(base.n_records(), 1);
    let r = base.record_at(0);
    assert_eq!((r.chunk, r.pos, r.next), (0, 2, 1));
    assert!(base.record(0, 1).is_none() && base.record(0, 3).is_none());
    assert!(base.record(0, 2).is_some() && base.record(1, 2).is_none());
    let lse = (1.0 + (-1.0f64).exp() + (-30.0f64).exp()).ln();
    let exact = lse + 1.0;
    let nll = -log_prob(&r, r.next);
    assert!(
        (nll - exact).abs() <= f64::from(f32::from_bits(r.scale)) / 2.0 + 1e-5,
        "nll {nll} vs exact {exact}"
    );
    assert!(r.level(2) == 0 && !r.next_at_floor());
    assert!(r.check_levels().is_ok());
    assert_eq!(r.levels().len(), 3);
    assert_eq!(base.chunk_tokens(0), Some(&[2, 0, 1, 1][..]));
    assert_eq!(base.chunk_tokens(1), None);
    assert_eq!((base.first_scored(), base.scored_per_chunk()), (2, 1));

    let mut magic = good.clone();
    magic[0] = b'L';
    assert_eq!(KldBase::open(&magic, 3).err(), Some(KldError::Magic));
    assert_eq!(
        KldBase::open(&good[..good.len() - 1], 3).err(),
        Some(KldError::Length)
    );
    assert_eq!(KldBase::open(&good, 4).err(), Some(KldError::Vocab));
    let mut id = good.clone();
    id[HEADER_BYTES + 4..HEADER_BYTES + 8].copy_from_slice(&3i32.to_le_bytes());
    assert_eq!(KldBase::open(&id, 3).err(), Some(KldError::Id(1)));
    assert_eq!(
        KldBase::open(&good[..10], 3).err(),
        Some(KldError::Short)
    );
    let mut size = good.clone();
    size[8..12].copy_from_slice(&(-4i32).to_le_bytes());
    assert!(matches!(
        KldBase::open(&size, 3).err(),
        Some(KldError::Size(_))
    ));

    let mut flipped = good;
    let top_high_byte = HEADER_BYTES + 4 * 4 + RECORD_HEAD_BYTES + 1;
    flipped[top_high_byte] ^= 0x80;
    let base = KldBase::open(&flipped, 3).unwrap();
    assert!(
        base.record_at(0).check_levels().is_err(),
        "a record whose top level lost a bit checks"
    );
}

/// A run's result line is the last of its tag, read field by field.
#[test]
fn a_result_line_is_the_last_of_its_tag() {
    let log = "ppl tag=a ctx=1 ppl=2.5\nnoise\nppl tag=b ctx=9\nppl tag=a ctx=512 chunks=x\n";
    let line = ResultLine::find(log, "a").unwrap();
    assert_eq!(line.parse("ctx", u64::MAX), Ok(512));
    assert_eq!(line.text("chunks").as_deref(), Some("x"));
    assert_eq!(line.parse("chunks", u64::MAX), Err(FieldError::Malformed));
    assert_eq!(line.parse("ppl", u64::MAX), Err(FieldError::Missing));
    assert!(ResultLine::find(log, "c").is_none());
    assert!(ResultLine::find(log, "").is_none());
}
