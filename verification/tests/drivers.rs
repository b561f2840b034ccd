use gpu_gates::cli::{
    arm_in, arms, check_ab, check_ids, check_sources, find_prompt, flag_value, has_flag,
    last_value, parse_decode, AbError, DecodeError, NoValue, RunError, StepProbe,
};
use gpu_gates::decode;
use gpu_gates::decode::{
    check_counts, check_room, depth_ids, draft_lever, fed_ids, feed_kind, finite_lever,
    finite_summary, held_span, prompt_from, prompt_row, ArgError, Draft, DraftRun, FedError,
    FeedKind, FiniteRow, HeldSpan, PassKind, ProbeError, PromptError, PromptFrom, RoomError,
};
use gpu_gates::decoder::VocabDecoder;
use gpu_gates::dspark::{draft_card, Feed, Pair, Skew, Verdict};
use gpu_gates::finite::{Piece, Site};
use gpu_gates::generate::{
    check_logits, engine_for, mode_name, Cut, Engine, FeedError, LogitsError, Place, Stand,
    StepMode,
};
use gpu_gates::kld_diff;
use gpu_gates::kld_diff::{
    delta_held, distance_bins, pair_counts, position_bins, tag_of, PosCounts,
};
use gpu_gates::oracle::Arch;
use gpu_gates::oxart::{card_line, driver_version, dump_body, entry_line, module_file, module_line, Command};
use gpu_gates::probe_args::{
    holds_window, parse_args, rss, size, status_field, Probe, ProbeArgs, ProbeError as MemError,
    SizeError, StatusError,
};
use gpu_gates::prompts::PromptRow;
use gpu_gates::step_stats;

fn args(list: &[&str]) -> Vec<String> {
    list.iter().map(|s| s.to_string()).collect()
}

/// The depth sequence is the one doubles compute, 100000 first.
#[test]
fn depth_ids_are_the_doubles_sequence() {
    let n = 5000;
    let mut want: Vec<u32> = Vec::with_capacity(n);
    let mut s: f64 = 12345.0;
    for i in 0..n {
        if i == 0 {
            want.push(100_000);
            continue;
        }
        s = (s * 1_103_515_245.0 + 12345.0) % 2_147_483_648.0;
        want.push(1000 + (s % 90_000.0) as u32);
    }
    let got = depth_ids(n);
    assert_eq!(got, want);
    assert!(got[1..].iter().all(|&x| (1000..91_000).contains(&x)));
}

/// The fed ids are the prompt, then the depth sequence from its length on.
#[test]
fn fed_ids_go_on_with_the_depth_sequence() {
    let d = depth_ids(6);
    assert_eq!(fed_ids(&[7, 8], Some(6)).unwrap()[2..], d[2..]);
    assert_eq!(fed_ids(&[7, 8], Some(6)).unwrap()[..2], [7, 8]);
    assert_eq!(fed_ids(&[7, 8], None).unwrap(), [7, 8]);
    assert_eq!(fed_ids(&[7, 8], Some(1)), Err(FedError::Shorter));
    assert_eq!(fed_ids(&[], None), Err(FedError::Empty));
    assert_eq!(fed_ids(&[], Some(3)).unwrap(), d[..3]);
}

/// The decode driver's arguments and each refusal.
#[test]
fn the_decoder_reads_its_arguments() {
    let a = decode::parse_args(&args(&[]), 100).unwrap();
    assert_eq!((a.n_gen, a.ctx, a.timed), (32, 100, false));
    assert!(a.place == Place::A && a.mode == StepMode::Graph);
    assert_eq!(prompt_from(&a), PromptFrom::Row(0));
    let a = decode::parse_args(
        &args(&["--tokens", "1, 2", "-n", "4", "-n", "5", "--time", "--warm", "1", "--mode", "eager"]),
        100,
    )
    .unwrap();
    assert_eq!(a.ids, Some(vec![1, 2]));
    assert_eq!((a.n_gen, a.warm, a.timed), (5, Some(1), true));
    assert!(a.mode == StepMode::Eager);
    assert_eq!(prompt_from(&a), PromptFrom::Ids);
    let a = decode::parse_args(&args(&["--depth", "9"]), 100).unwrap();
    assert_eq!(prompt_from(&a), PromptFrom::Nothing);
    let err = |l: &[&str]| decode::parse_args(&args(l), 100).err();
    assert_eq!(err(&["-n"]), Some(ArgError::NoValue(0)));
    assert_eq!(err(&["-n", "x"]), Some(ArgError::Value(0)));
    assert_eq!(err(&["--time", "--what", "1"]), Some(ArgError::Unknown(1)));
    assert_eq!(
        err(&["--tokens", "1", "--prompt-id", "2"]),
        Some(ArgError::TwoPrompts)
    );
    assert_eq!(err(&["-n", "0"]), Some(ArgError::NoTokens));
    assert_eq!(err(&["-n", "1", "--time"]), Some(ArgError::NothingTimed));
    assert_eq!(err(&["--warm", "1"]), Some(ArgError::WarmUntimed));
    assert_eq!(
        err(&["--time", "-n", "3", "--warm", "2"]),
        Some(ArgError::WarmAll)
    );
    assert_eq!(check_counts(3, true, Some(1)), Ok(()));
}

/// A prompt's row is the first that is neither blank nor a comment.
#[test]
fn a_prompt_row_is_the_first_row() {
    assert_eq!(
        prompt_row("# c\n\n0\t3\t5, 6,7\trest\n1\t1\t9\n").unwrap(),
        [5, 6, 7]
    );
    assert_eq!(prompt_row("# c\n"), Err(PromptError::NoRow));
    assert_eq!(prompt_row("0\t3\n"), Err(PromptError::NoIds));
    assert_eq!(prompt_row("0\t3\t5,x\n"), Err(PromptError::Ids));
}

/// The levers by their values.
#[test]
fn levers_refuse_what_they_do_not_know() {
    assert_eq!(draft_lever(None), Some(Draft::Off));
    assert_eq!(draft_lever(Some("lookup")), Some(Draft::Lookup));
    assert_eq!(draft_lever(Some("dspark")), Some(Draft::Dspark));
    assert_eq!(draft_lever(Some("x")), None);
    assert_eq!(Draft::Off.name(), "unset");
    assert_eq!(finite_lever(None, true, Draft::Off, false), Ok(false));
    assert_eq!(finite_lever(Some("1"), false, Draft::Off, false), Ok(true));
    assert_eq!(
        finite_lever(Some("2"), false, Draft::Off, false),
        Err(ProbeError::Value)
    );
    assert_eq!(
        finite_lever(Some("1"), true, Draft::Lookup, true),
        Err(ProbeError::Timed)
    );
    assert_eq!(
        finite_lever(Some("1"), false, Draft::Lookup, true),
        Err(ProbeError::Draft)
    );
    assert_eq!(
        finite_lever(Some("1"), false, Draft::Off, true),
        Err(ProbeError::Stats)
    );
    assert_eq!(check_room(10, 5, Draft::Off, 14), Ok(()));
    assert_eq!(check_room(10, 5, Draft::Off, 13), Err(RoomError::Context));
    assert_eq!(
        check_room(10, 5, Draft::Lookup, 14),
        Err(RoomError::Overshoot)
    );
    assert_eq!(check_room(10, 1, Draft::Lookup, 99), Err(RoomError::NoPass));
    assert_eq!(feed_kind(true, true), FeedKind::Checked);
    assert_eq!(feed_kind(false, true).name(), "batch");
    assert_eq!(feed_kind(false, false).name(), "steps");
    assert_eq!(
        held_span(&[0, 3, 0, 9, 2]),
        HeldSpan {
            min: 2,
            max: 9,
            layers: 3
        }
    );
    assert_eq!(
        held_span(&[0, 0]),
        HeldSpan {
            min: 0,
            max: 0,
            layers: 0
        }
    );
}

/// A drafted run emits what its passes give; the last may overshoot by one.
#[test]
fn a_drafted_run_overshoots_by_one_at_most() {
    let mut run = DraftRun::new(4, 100);
    assert_eq!(run.take(7, Some(Verdict::Accept([1, 2])), 0), PassKind::Accept);
    assert!(run.wants());
    assert_eq!(run.take(9, Some(Verdict::Accept([3, 4])), 0), PassKind::Accept);
    assert!(!run.wants());
    assert_eq!(run.tokens(), [100, 1, 2, 3]);
    let s = run.summary(0).unwrap();
    assert_eq!((s.proposals, s.accepts, s.positions), (2, 2, 4));
    let mut run = DraftRun::new(3, 100);
    assert_eq!(run.take(7, Some(Verdict::Reject(5)), 0), PassKind::Reject);
    assert_eq!(run.take(8, None, 6), PassKind::Plain);
    assert_eq!(run.tokens(), [100, 5, 6]);
    assert_eq!(PassKind::Accept.positions(), 2);
    assert_eq!(PassKind::Reject.name(), "pair-reject");
    let s = run.summary(1).unwrap();
    assert_eq!((s.proposals, s.accepts, s.kept), (1, 0, 1));
}

/// The finite probe's lines.
#[test]
fn a_finite_summary_names_the_first_bad_position() {
    let site = Site {
        layer: 3,
        piece: Piece::Moe,
    };
    let rows = [
        FiniteRow {
            pos: 4,
            first: None,
            observed: 9,
            stepped: 9,
        },
        FiniteRow {
            pos: 5,
            first: Some(site),
            observed: 8,
            stepped: 9,
        },
    ];
    assert!(!rows[0].speaks() && rows[1].speaks());
    assert_eq!(rows[0].describe("ok"), "ok");
    assert_eq!(
        rows[1].describe("bad"),
        "bad eager_differs: observed 8 engine 9"
    );
    let s = finite_summary(&rows);
    assert!(s.contains("positions=2") && s.contains("nonfinite_positions=1"));
    assert!(s.contains("pos 5") && s.contains("eager_differs=1"));
}

/// Tokens' bytes decode to what the standard library makes of the whole.
#[test]
fn pieces_decode_as_the_whole_does() {
    let texts: [&[u8]; 6] = [
        "plain".as_bytes(),
        "h\u{e9}llo \u{4e16}\u{754c} \u{1f980}".as_bytes(),
        b"\xff\xfe ok",
        b"\xe4\xb8 cut",
        b"\xf0\x9f\xa6\x80\xf0\x9f",
        b"\xed\xa0\x80 \xc0\x80",
    ];
    for bytes in texts {
        let whole = String::from_utf8_lossy(bytes).into_owned();
        for step in 1..=bytes.len() {
            let mut d = VocabDecoder::new();
            let mut out = String::new();
            for piece in bytes.chunks(step) {
                if let Some(s) = d.push(piece) {
                    out.push_str(&s);
                }
            }
            out.push_str(&d.flush());
            assert_eq!(out, whole, "{bytes:?} by {step}");
        }
    }
    let mut d = VocabDecoder::new();
    assert_eq!(d.push(b"\xf0\x9f"), None);
    assert_eq!(d.push(b"\xa6\x80!").as_deref(), Some("\u{1f980}!"));
}

/// The stand's positions stay within the context.
#[test]
fn a_stand_feeds_within_its_context() {
    let mut s = Stand::new(3);
    assert_eq!(s.prefill(0), Err(FeedError::Nothing));
    assert_eq!(s.prefill(4), Err(FeedError::Full));
    assert_eq!(s.prefill(2), Ok(()));
    assert_eq!(s.step(), Ok(()));
    assert_eq!(s.step(), Err(FeedError::Full));
    assert_eq!(s.pos, 3);
    assert!(matches!(s.cut(3), Cut::Nothing));
    assert!(matches!(s.cut(1), Cut::Rollback(1)));
    s.reset();
    assert_eq!(s.pos, 0);
    assert!(Place::parse("a").is_ok() && Place::parse("gate").is_ok());
    assert_eq!(
        Place::parse("b").err().as_deref(),
        Some("--place is a or gate, not b")
    );
    assert_eq!((Place::A.name(), Place::Gate.name()), ("a", "gate"));
    assert_eq!(mode_name(StepMode::Graph), "graph");
    assert_eq!(mode_name(StepMode::Eager), "eager");
    assert_eq!(engine_for(Arch::Deepseek2), Ok(Engine::Deepseek2));
    assert_eq!(engine_for(Arch::Deepseek41), Err(Arch::Deepseek41));
    assert_eq!(check_logits(&[0, 0], 3), Err(LogitsError::Length));
    assert_eq!(
        check_logits(&[0, f32::NAN.to_bits()], 2),
        Err(LogitsError::Nan(1))
    );
    assert_eq!(check_logits(&[0, f32::INFINITY.to_bits()], 2), Ok(()));
}

/// A pair keeps both rows where row A is the draft, and takes the second back
/// where it is not.
#[test]
fn a_pair_keeps_what_the_target_says() {
    let mut p = Pair {
        committed: 10,
        pos: 10,
    };
    assert!(p.begin().is_ok());
    let r = p.verify(5, 5, 6);
    assert!(matches!(r.verdict, Verdict::Accept([5, 6])));
    assert_eq!((r.rows, p.pos, p.committed), (2, 12, 12));
    let r = p.verify(5, 7, 6);
    assert!(matches!(r.verdict, Verdict::Reject(7)));
    assert_eq!((r.rows, p.pos, p.committed), (1, 13, 13));
    p.committed = 12;
    assert!(matches!(p.begin(), Err(Skew)));
    let mut f = Feed::new(4);
    let sent: Vec<u32> = (0..9).map(|_| f.feed()).collect();
    assert_eq!(sent, [0, 0, 0, 4, 0, 0, 0, 4, 0]);
    assert_eq!(f.flush(), 1);
    assert_eq!(f.committed, 9);
    assert_eq!(draft_card(None, "3090", "A6000"), Some("3090"));
    assert_eq!(draft_card(Some("A6000"), "3090", "A6000"), Some("A6000"));
    assert_eq!(draft_card(Some("x"), "3090", "A6000"), None);
}

/// The first and the last value of a flag.
#[test]
fn flags_take_their_first_or_last_value() {
    let a = args(&["-n", "1", "--time", "-n", "2"]);
    assert_eq!(flag_value(&a, "-n"), Ok(Some("1".to_string())));
    assert_eq!(last_value(&a, "-n"), Ok(Some("2".to_string())));
    assert_eq!(flag_value(&a, "--x"), Ok(None));
    assert!(has_flag(&a, "--time") && !has_flag(&a, "--x"));
    let cut = args(&["-n", "1", "-n"]);
    assert_eq!(last_value(&cut, "-n"), Err(NoValue));
    assert_eq!(flag_value(&args(&["-n"]), "-n"), Err(NoValue));
}

/// The plain decode driver's arguments and each refusal.
#[test]
fn the_plain_driver_reads_its_arguments() {
    let d = parse_decode(&args(&["gen"])).unwrap();
    assert_eq!((d.n_gen, d.ctx, d.prompt_id, d.ab), (32, 512, 0, None));
    assert!(d.tokens.is_none() && d.probe == StepProbe::base() && !d.timed);
    let d = parse_decode(&args(&["gen", "--tokens", "4, 5", "--ab", "3", "--probe-pad", "2"])).unwrap();
    assert_eq!(d.tokens, Some(vec![4, 5]));
    assert_eq!((d.ab, d.probe.pad_per_layer), (Some(3), 2));
    let err = |l: &[&str]| parse_decode(&args(l)).err();
    assert_eq!(err(&["-n"]), Some(DecodeError::NoValue));
    assert_eq!(err(&["-n", "x"]), Some(DecodeError::Number));
    assert_eq!(err(&["--mode", "x"]), Some(DecodeError::Mode));
    assert_eq!(err(&["--tokens", "x"]), Some(DecodeError::Tokens));
    assert_eq!(err(&["--probe-split-kqvc"]), Some(DecodeError::Lever));
    assert!(err(&["--probe-split-kqvc", "--probe-split-flash-quant"]).is_none());
    let rows = [
        PromptRow {
            id: 4,
            text: String::new(),
            tokens: vec![1],
        },
        PromptRow {
            id: 2,
            text: String::new(),
            tokens: vec![2],
        },
    ];
    assert_eq!(find_prompt(&rows, 2), Some(1));
    assert_eq!(find_prompt(&rows, 3), None);
    assert_eq!(check_ab(0, 9), Err(AbError::Rounds));
    assert_eq!(check_ab(1, 1), Err(AbError::Steps));
    assert_eq!(check_ab(1, 2), Ok(()));
}

/// Each round runs every arm once, and the starting arm rotates.
#[test]
fn arms_rotate_through_the_rounds() {
    let all = arms();
    let names: Vec<&str> = all.iter().map(|a| a.0).collect();
    assert_eq!(
        names,
        ["base", "split_flash_quant", "split_moe_quant", "split_both"]
    );
    assert!(all[3].1.split_flash_quant && all[3].1.split_moe_quant);
    for round in 0..6 {
        let mut order: Vec<usize> = (0..4).map(|slot| arm_in(round, slot, 4)).collect();
        assert_eq!(order[0], round % 4);
        order.sort();
        assert_eq!(order, [0, 1, 2, 3]);
    }
    assert!(StepProbe::base().acts());
}

/// One source, a counted step, and a depth within the context.
#[test]
fn one_source_and_room_for_it() {
    assert_eq!(check_sources(true, false, false, 4, false, 0), Ok(()));
    assert_eq!(
        check_sources(true, true, false, 4, false, 0),
        Err(RunError::Sources)
    );
    assert_eq!(
        check_sources(false, false, false, 4, false, 0),
        Err(RunError::Sources)
    );
    assert_eq!(
        check_sources(true, false, false, 0, false, 0),
        Err(RunError::NoStep)
    );
    assert_eq!(
        check_sources(true, false, false, 3, true, 2),
        Err(RunError::NoStep)
    );
    assert_eq!(check_ids(5, None, 3, 8), Ok(5));
    assert_eq!(check_ids(5, None, 4, 8), Err(RunError::Context));
    assert_eq!(check_ids(1, Some(7), 1, 8), Ok(7));
    assert_eq!(check_ids(0, Some(7), 1, 8), Err(RunError::NoIds));
}

/// Sizes in binary units.
#[test]
fn sizes_take_binary_units() {
    assert_eq!(size("4096"), Ok(4096));
    assert_eq!(size("3k"), Ok(3072));
    assert_eq!(size("2M"), Ok(2 << 20));
    assert_eq!(size("1G"), Ok(1 << 30));
    assert_eq!(size("G"), Err(SizeError::Number));
    assert_eq!(size(""), Err(SizeError::Number));
    assert_eq!(size("99999999999G"), Err(SizeError::Overflow));
}

/// The probes' arguments and each refusal.
#[test]
fn the_probes_read_their_arguments() {
    let reg = |l: &[&str]| parse_args(Probe::Register, &args(l));
    let dev = |l: &[&str]| parse_args(Probe::HostToDevice, &args(l));
    assert_eq!(
        reg(&[]),
        Ok(ProbeArgs {
            bytes: 1 << 30,
            reps: 8,
            offset: 0
        })
    );
    assert_eq!(
        reg(&["--bytes", "8K", "--offset", "4K"]),
        Ok(ProbeArgs {
            bytes: 8192,
            reps: 8,
            offset: 4096
        })
    );
    assert_eq!(reg(&["--bytes"]), Err(MemError::NoValue(0)));
    assert_eq!(reg(&["--reps", "x"]), Err(MemError::Value(0)));
    assert_eq!(reg(&["--reps", "1", "--y"]), Err(MemError::Unknown(2)));
    assert_eq!(reg(&["--bytes", "5000"]), Err(MemError::Range));
    assert_eq!(reg(&["--bytes", "0"]), Err(MemError::Range));
    assert_eq!(dev(&["--offset", "0"]), Err(MemError::Unknown(0)));
    assert_eq!(dev(&["--reps", "4"]), Err(MemError::Range));
    assert_eq!(dev(&["--bytes", "8K"]), Err(MemError::Value(0)));
    assert!(dev(&["--reps", "5", "--bytes", "8192"]).is_ok());
    let a = reg(&["--bytes", "8K", "--offset", "4K"]).unwrap();
    assert!(holds_window(&a, 12288) && !holds_window(&a, 12287));
}

/// A process's resident memory out of its status.
#[test]
fn resident_memory_reads_its_two_lines() {
    let s = "Name:\tx\nRssAnon:\t     120 kB\nRssFile:\t  7 kB\n";
    assert_eq!(rss(s), Ok((120, 7)));
    assert_eq!(status_field(s, "VmSwap:"), Err(StatusError::Missing));
    assert_eq!(
        status_field("RssAnon: many kB\n", "RssAnon:"),
        Err(StatusError::Number)
    );
}

/// The comparison's arguments, bins and worst positions.
#[test]
fn the_comparison_bins_its_positions() {
    let a = kld_diff::parse_args(&args(&["p.kld", "q.kld", "--ubatch", "512"])).unwrap();
    assert_eq!((a.p.as_str(), a.q.as_str()), ("p.kld", "q.kld"));
    assert_eq!(a.ubatch, [512]);
    assert!(kld_diff::parse_args(&args(&["p.kld"])).is_err());
    assert_eq!(tag_of("/d/kldbase-c512x16.kld").as_deref(), Some("kldbase-c512x16"));
    assert_eq!(tag_of("/"), None);
    let bins = distance_bins();
    for x in [0usize, 1, 3, 7, 100, 511, 100_000] {
        assert_eq!(bins.iter().filter(|b| b.holds(x)).count(), 1, "{x}");
    }
    let spans = position_bins(&[70, 200]);
    assert_eq!(spans.len(), 3);
    assert_eq!(spans[0].label(), "64-127");
    let kld: Vec<u64> = (0..30).map(|i| f64::from(i % 7).to_bits()).collect();
    let worst = kld_diff::worst(&kld);
    assert_eq!(worst.len(), kld_diff::WORST);
    assert_eq!(worst[..4], [6, 13, 20, 27]);
    let d = |x: f64| x.to_bits();
    assert!(delta_held(d(-0.5), false, d(0.5)) && !delta_held(d(-0.6), false, d(0.5)));
    assert!(delta_held(d(-9.0), true, d(0.5)) && !delta_held(d(0.6), true, d(0.5)));
    assert!(!delta_held(d(f64::NAN), false, d(0.5)));
    let c = pair_counts(&[
        PosCounts {
            q_top_count: 2,
            q_next_at_floor: false,
            cut_at_q_floor: 3,
        },
        PosCounts {
            q_top_count: 1,
            q_next_at_floor: true,
            cut_at_q_floor: 4,
        },
    ]);
    assert_eq!((c.ties, c.floor, c.cut_floor), (1, 1, 7));
}

/// The artifact tools' arguments, names and lines.
#[test]
fn the_artifact_tools_name_their_output() {
    assert!(matches!(
        Command::parse(&args(&["s", "d"])),
        Some(Command::Extract { norm: false, section, .. }) if section == "s"
    ));
    assert!(matches!(
        Command::parse(&args(&["--norm", "s", "d"])),
        Some(Command::Extract { norm: true, .. })
    ));
    assert!(matches!(
        Command::parse(&args(&["--norm-dump", "e", "f"])),
        Some(Command::NormDump { entry, file }) if entry == "e" && file == "f"
    ));
    assert!(Command::parse(&args(&["a"])).is_none());
    assert!(Command::parse(&args(&["--x", "a", "b"])).is_none());
    assert_eq!(module_file(3), "mod3.ptx");
    assert_eq!(module_line(1, "k", 42), "mod1 bundle=k bytes=42");
    assert_eq!(
        dump_body(b"  \n.visible .entry k(\n)", b".visible .entry k("),
        Some(b"\n)".to_vec())
    );
    assert_eq!(dump_body(b".func k(", b".visible .entry k("), None);
    assert_eq!(driver_version(13020), (13, 2));
    assert_eq!(
        card_line("NVIDIA RTX A6000", 12080),
        "# card=NVIDIA_RTX_A6000 cuda_driver=12.8"
    );
    assert_eq!(entry_line("k", 40, 0, 1024, 256), "k\t40\t0\t1024\t256");
}

/// Steps are the differences of the probes, and the summary is theirs.
#[test]
fn step_counters_are_differences() {
    let zero = step_stats::Probe {
        served: 0,
        leg_ns: 0,
        straggle_ns: 0,
        straggle_max_ns: 0,
        host_slots: 0,
        overlap_slots: 0,
        pair_row1_slots: 0,
        go_early: 0,
        parks: 0,
        go_early_first: 0,
        first_serve_lag_ns: 0,
        launch_ns: 0,
        wake_ns: 0,
        eng_warm: 0,
        eng_cold: 0,
        eng_direct: 0,
        eng_wait_ns: 0,
        eng_helper_ns: 0,
        eng_classify_ns: 0,
        majflt: 0,
        minflt: 0,
        vram_free: 900,
    };
    let mut one = zero;
    one.served = 3;
    one.leg_ns = 100;
    one.host_slots = 5;
    one.overlap_slots = 2;
    one.vram_free = 800;
    let mut two = one;
    two.served = 10;
    two.leg_ns = 130;
    two.vram_free = 850;
    let steps = step_stats::steps(&[zero, one, two]);
    assert_eq!(steps.len(), 2);
    assert_eq!((steps[0].served, steps[1].served), (3, 7));
    assert_eq!((steps[0].leg_ns, steps[1].leg_ns), (100, 30));
    let s = step_stats::summarize(&zero, &steps, 0).unwrap();
    assert_eq!((s.steps, s.leg_sum_ns), (2, 130));
    assert_eq!((s.vram_free_load, s.vram_free_min), (900, 800));
    assert!(step_stats::summarize(&zero, &steps, 2).is_none());
    assert!(step_stats::helper_name(None).len() > 0);
}
