use gpu_gates::bind::{model_props, ModelFacts, Role, TensorFact};
use gpu_gates::decode::{DraftRun, PassKind};
use gpu_gates::draft::Lookup;
use gpu_gates::dspark::{Feed, Pair, Verdict};
use gpu_gates::generate::{Cut, Stand};
use gpu_gates::rounding::butterfly;
use gpu_gates::serve::{answer, begin, kept, specials, Action, Cmd, Given, Handle};

fn ok(argmax: u32) -> Given {
    Given {
        argmax: Ok(argmax),
        row: Err("not read".to_string()),
    }
}

fn failed(e: &str) -> Given {
    Given {
        argmax: Err(e.to_string()),
        row: Err("not read".to_string()),
    }
}

fn row(argmax: u32, v: &[f32]) -> Given {
    Given {
        argmax: Ok(argmax),
        row: Ok(v.iter().map(|x| x.to_bits()).collect()),
    }
}

/// A command is refused where it does not fit, and asks the model else.
#[test]
fn commands_are_refused_before_they_run() {
    let s = Stand { pos: 6, ctx: 8 };
    let feed = |n: usize| begin(&s, &Cmd::Prefill(vec![1; n]));
    assert_eq!(feed(2), Ok(Action::Feed));
    assert_eq!(
        feed(3),
        Err(
            "prefill of 3 ids from position 6: the ids must be at least one and fit the context 8"
                .to_string()
        )
    );
    assert!(feed(0).is_err());
    let next = Cmd::Next {
        last: 5,
        logits: true,
    };
    assert_eq!(
        begin(&s, &next),
        Ok(Action::Step {
            last: 5,
            logits: true
        })
    );
    assert_eq!(
        begin(&Stand { pos: 8, ctx: 8 }, &next),
        Err("step at position 8: step: the context 8 is full".to_string())
    );
    assert_eq!(begin(&s, &Cmd::Reset), Ok(Action::Reset));
    assert_eq!(begin(&s, &Cmd::Rollback(3)), Ok(Action::Rollback(3)));
    assert_eq!(
        begin(&s, &Cmd::Keep(4)),
        Err("a keep query of 4 reached the step loop; the engine thread answers it".to_string())
    );
}

/// What the model gave is the reply, and a bad row of logits the step's error.
#[test]
fn replies_say_what_the_model_gave() {
    let next = |logits: bool| Cmd::Next { last: 5, logits };
    assert_eq!(answer(&next(false), 6, 3, ok(9)), Ok((9, None)));
    assert_eq!(
        answer(&next(true), 6, 2, row(9, &[1.0, 2.0])),
        Ok((9, Some(vec![1.0f32.to_bits(), 2.0f32.to_bits()])))
    );
    assert_eq!(
        answer(&next(true), 6, 3, row(9, &[1.0, 2.0])),
        Err("the head gave 2 logits at position 6, the vocabulary has 3".to_string())
    );
    assert_eq!(
        answer(&next(true), 6, 2, row(9, &[1.0, f32::NAN])),
        Err("logit 1 is NaN after position 6".to_string())
    );
    assert_eq!(
        answer(&next(true), 6, 2, ok(9)),
        Err("logits after position 6: not read".to_string())
    );
    assert_eq!(
        answer(&next(true), 6, 2, failed("device")),
        Err("step at position 6: device".to_string())
    );
    let feed = Cmd::Prefill(vec![1, 2]);
    assert_eq!(answer(&feed, 6, 2, ok(7)), Ok((7, None)));
    assert_eq!(
        answer(&feed, 6, 2, failed("device")),
        Err("prefill of 2 ids from position 6: device".to_string())
    );
    assert_eq!(answer(&Cmd::Reset, 6, 2, ok(7)), Ok((0, None)));
    assert_eq!(
        answer(&Cmd::Reset, 6, 2, failed("device")),
        Err("reset at position 6: device".to_string())
    );
    assert_eq!(answer(&Cmd::Rollback(3), 6, 2, ok(7)), Ok((0, None)));
    assert_eq!(
        answer(&Cmd::Rollback(3), 6, 2, failed("device")),
        Err("rollback to position 3 from 6: device".to_string())
    );
    assert!(answer(&Cmd::Keep(3), 6, 2, ok(7)).is_err());
}

/// The handle's own answers: what stays of a cache, what a cut asks, the
/// caller's buffer.
#[test]
fn the_handle_answers_for_the_thread() {
    let h = Handle {
        card: "A6000".to_string(),
        pos: 12,
    };
    assert_eq!(h.describe(), "card=A6000 position=12");
    assert!(h.prefill(&[]).is_none());
    assert!(matches!(h.prefill(&[4, 5]), Some(Cmd::Prefill(v)) if v == [4, 5]));
    assert_eq!(h.fits(3, 3), Ok(()));
    assert_eq!(
        h.fits(2, 3),
        Err("the caller's logits buffer holds 2, the head gave 3".to_string())
    );
    assert_eq!(kept(7, 9), Ok(7));
    if usize::BITS == 64 {
        assert_eq!(
            kept(usize::MAX, 9),
            Err("a kept prefix of at most 9 passes u32".to_string())
        );
    }
    let s = Stand { pos: 12, ctx: 64 };
    assert_eq!(s.keepable(20, Some(15)), 12);
    assert_eq!(s.keepable(10, Some(4)), 4);
    assert_eq!(s.keepable(10, None), 0);
    assert_eq!(s.cut(12), Cut::Nothing);
    assert_eq!(s.cut(5), Cut::Rollback(5));
    assert_eq!(s.cut(1 << 32), Cut::PastRange);
    let s = specials(Some(1), Some(2)).unwrap();
    assert_eq!((s.bos, s.eos), (1, 2));
    assert_eq!(
        specials(None, None),
        Err("the vocabulary names no BOS token")
    );
    assert_eq!(
        specials(Some(1), None),
        Err("the vocabulary names no EOS token")
    );
}

/// What the server says of a model file.
#[test]
fn a_model_is_described_by_its_file() {
    let t = |ty: &str, bytes: u64| TensorFact {
        role: Role::RoutedExperts,
        ty: Some(ty.to_string()),
        bytes,
    };
    let facts = |shards: Vec<Option<u64>>| ModelFacts {
        arch: Some("deepseek41".to_string()),
        tensors: vec![t("Q3_K", 5), t("Q4_K", 6)],
        shards,
        layers: 27,
        experts: 64,
        experts_used: 6,
        ctx_train: None,
    };
    let p = model_props(facts(vec![Some(7), Some(8)]));
    assert_eq!((p.format, p.quant.as_deref()), ("gguf", Some("Q4_K")));
    assert_eq!((p.bytes, p.files), (Some(15), 2));
    assert_eq!((p.n_layers, p.n_experts, p.n_experts_used), (27, 64, 6));
    assert_eq!(p.arch.as_deref(), Some("deepseek41"));
    assert_eq!(p.ctx_train, None);
    assert_eq!(model_props(facts(vec![Some(7), None])).bytes, None);
}

/// Under the lookup's draft a run emits the plain run's tokens.
#[test]
fn a_drafted_run_emits_the_plain_runs_tokens() {
    // A target that walks a cycle with a slip every eleventh token.
    let target = |text: &[u32]| -> u32 {
        let n = text.len() as u32;
        if n % 11 == 0 {
            100 + n
        } else {
            text[text.len() - 1] % 5 + 1
        }
    };
    let ids: Vec<u32> = vec![1, 2, 3, 4, 5, 1, 2];
    let n_gen = 60;
    let mut plain = ids.clone();
    for _ in 0..n_gen {
        plain.push(target(&plain));
    }
    let mut text = ids.clone();
    let first = target(&text);
    text.push(first);
    let mut look = Lookup::new();
    for &t in &text {
        look.push(t);
    }
    let mut run = DraftRun::new(n_gen, first);
    while run.wants() {
        let pos = (text.len() - 1) as u32;
        let (verdict, stepped) = match look.propose() {
            None => (None, target(&text)),
            Some(d) => {
                let ta = target(&text);
                let mut with = text.clone();
                with.push(d);
                let tb = target(&with);
                let mut pair = Pair {
                    committed: pos,
                    pos,
                };
                assert!(pair.begin().is_ok());
                let passed = pair.verify(d, ta, tb);
                assert_eq!(passed.rollback.is_some(), ta != d);
                assert_eq!(pair.pos, pos + passed.rows);
                (Some(passed.verdict), 0)
            }
        };
        let before = run.emitted.len();
        let kind = run.take(pos, verdict, stepped);
        assert_eq!(run.emitted.len() - before, kind.positions());
        for e in &run.emitted[before..] {
            text.push(e.token);
            look.push(e.token);
        }
    }
    assert_eq!(run.tokens(), plain[ids.len()..]);
    let s = run.summary(0).unwrap();
    assert!(s.accepts > 0 && s.proposals > s.accepts);
    assert_eq!(s.positions, run.passes.len() + s.accepts);
    assert!(run.passes.contains(&PassKind::Reject));
}

/// A draft's features go in by whole groups, and a skip commits what waits.
#[test]
fn features_are_fed_by_groups() {
    let mut f = Feed::new(3);
    assert_eq!((f.feed(), f.feed(), f.feed()), (0, 0, 3));
    assert_eq!((f.committed, f.pending), (3, 0));
    assert_eq!(f.feed(), 0);
    assert_eq!(f.skip_to(4), None);
    assert_eq!(f.skip_to(9), Some(1));
    assert_eq!((f.committed, f.pending), (9, 0));
    assert_eq!(f.flush(), 0);
    assert_eq!(Verdict::Reject(3), Verdict::Reject(3));
}

/// Lane 0 of the butterfly holds the sum of the lanes.
#[test]
fn the_butterfly_adds_every_lane() {
    let lanes: [u64; 32] = std::array::from_fn(|i| 1 << i);
    assert_eq!(butterfly(lanes), u64::from(u32::MAX));
}
