use gpu_gates::files::{
    logical_source, mask_bits, plain_is_logical, ref_ints_of, ref_tensor_logical, ref_tensor_of,
    topk_file, topk_ids_logical, topk_ids_logical_within, widened_f16_bits, widened_f16_rows,
    FileError, Source,
};
use gpu_gates::manifest::{LineError, ManifestError, RefRow};
use gpu_gates::naming::{dump_file_name, dump_stem, FileElem, Layout, RowKind};
use gpu_gates::oracle::{for_arch, Arch, OpenError, RefSet};
use gpu_gates::set::{find_ref_row, RefManifest, SourceError, StepError};

/// `lines` as a set's manifest, read back.
fn manifest(lines: &[&str]) -> Result<RefManifest, ManifestError> {
    RefManifest::parse(&(lines.join("\n") + "\n"))
}

fn f32_file(vals: &[f32]) -> Vec<u8> {
    vals.iter().flat_map(|v| v.to_le_bytes()).collect()
}

fn sum(r: Option<&RefRow>) -> Option<f64> {
    r.map(|r| r.sum.parse().unwrap())
}

/// The top-k reader takes the exact `.logical.i32` twin when the manifest has
/// `int` rows and the `.logical.f32` twin when it has none (the f32 file below
/// disagrees in one id, so the result shows which file was read) and a manifest
/// with twins but none for the row is an error. Ids are bounded by the caller's
/// expert count, 64 where none is given. The name has a space, so the files
/// resolve only through the dumper's stem rule.
#[test]
fn topk_ids_take_the_integer_twin_when_the_set_has_twins() {
    let ids: [i32; 4] = [3, 63, 0, 17];
    let stem = "ffn_moe_topk-1_(view).0.logical";
    let exact: Vec<u8> = ids.iter().flat_map(|v| v.to_le_bytes()).collect();
    let cast_bytes = f32_file(&[3.0, 63.0, 0.0, 16.0]);
    let file = |name: &str| -> Vec<u8> {
        if name == format!("{stem}.i32") {
            exact.clone()
        } else if name == format!("{stem}.f32") {
            cast_bytes.clone()
        } else {
            panic!("no file {name}")
        }
    };
    let tensor =
        "tensor\tffn_moe_topk-1 (view)\t0\ti32\t2\t2\t1\t1\t16\t0.000000\tVIEW\t0\t1\t-\t-";
    let int = format!(
        "int\tffn_moe_topk-1 (view)\t0\ttensor\ti32\ti32\tlogical\t4\t16\t83\t63\t{stem}.i32"
    );
    let other = int.replacen("\t0\t", "\t1\t", 1);
    let twins = manifest(&[tensor, &int]).unwrap();
    let raw = file(&topk_file(&twins, &twins.tensors[0]).unwrap());
    assert_eq!(
        topk_ids_logical(&twins, &twins.tensors[0], &raw).unwrap(),
        ids
    );
    assert!(topk_ids_logical_within(&twins, &twins.tensors[0], 63, &raw).is_err());
    let cast = manifest(&[tensor]).unwrap();
    let raw = file(&topk_file(&cast, &cast.tensors[0]).unwrap());
    assert_eq!(
        topk_ids_logical(&cast, &cast.tensors[0], &raw).unwrap(),
        [3, 63, 0, 16]
    );
    assert!(topk_ids_logical_within(&cast, &cast.tensors[0], 63, &raw).is_err());
    let unmatched = manifest(&[tensor, &other]).unwrap();
    assert!(topk_file(&unmatched, &unmatched.tensors[0]).is_err());
    assert!(topk_ids_logical(&unmatched, &unmatched.tensors[0], &raw).is_err());
}

/// The index finds a row by `(kind, name, occurrence)` and of a key two rows
/// carry, the first, the row a scan in file order finds; the second is counted
/// as a duplicate. The positional reads agree with a scan.
#[test]
fn the_index_finds_the_row_a_scan_finds_first() {
    let man = manifest(&[
        "tensor\tx\t0\tf32\t1\t1\t1\t1\t4\t1.0\tADD",
        "tensor\tx\t1\tf32\t1\t1\t1\t1\t4\t2.0\tADD",
        "input\tx\t0\tf32\t1\t1\t1\t1\t4\t3.0\tNONE",
        "tensor\tx\t0\tf32\t1\t1\t1\t1\t4\t4.0\tADD",
        "int\tp\t0\tinput\ti32\ti32\tflat\t1\t4\t7\t7\tp.0.input.i32",
        "int\tp\t0\tinput\ti32\ti32\tlogical\t1\t4\t7\t7\tp.0.input.logical.i32",
        "skip\ty\t0\tq8_0\tquantized",
        "tensor\ty\t1\tf32\t1\t1\t1\t1\t4\t5.0\tADD",
    ])
    .unwrap();
    assert_eq!(sum(man.find(RowKind::Tensor, "x", 0)), Some(1.0));
    assert_eq!(
        sum(man.find(RowKind::Tensor, "x", 0)),
        sum(find_ref_row(&man.tensors, "x", 0).ok())
    );
    assert_eq!(sum(man.tensor("x", 1).ok()), Some(2.0));
    assert_eq!(sum(man.input("x", 0).ok()), Some(3.0));
    assert!(man.find(RowKind::Input, "x", 1).is_none());
    assert!(man.tensor("y", 0).is_err());
    assert_eq!(man.duplicate_keys(), 1);
    let twin = man
        .find_int_row("p", 0, RowKind::Input, Layout::Logical)
        .unwrap();
    assert_eq!(twin.file, "p.0.input.logical.i32");
    assert!(man
        .find_int_row("p", 0, RowKind::Tensor, Layout::Flat)
        .is_err());

    assert_eq!(man.position(RowKind::Tensor, "x", 1), Some(1));
    assert_eq!(man.tensor_at("y", 1).unwrap().0, 3);
    assert_eq!(sum(man.first_named(RowKind::Tensor, "x")), Some(1.0));
    assert_eq!(sum(man.first_named(RowKind::Tensor, "y")), Some(5.0));
    assert!(man.first_named(RowKind::Input, "y").is_none());
    // Without the source columns a source cannot be named.
    assert_eq!(man.last_before(2, Some("x")).unwrap().0, 1);
    assert!(matches!(
        man.last_before(0, Some("x")),
        Err(SourceError::NotBefore)
    ));
    assert!(matches!(
        man.last_before(3, None),
        Err(SourceError::NoColumn)
    ));
    let touched = |at: usize| -> Vec<f64> {
        man.first_touched_by(at)
            .iter()
            .map(|&i| man.inputs[i].sum.parse().unwrap())
            .collect()
    };
    assert_eq!(touched(2), [3.0]);
    assert!(touched(1).is_empty() && touched(3).is_empty());

    assert_eq!(
        sum(man.only_with_prefix(RowKind::Input, "x").ok()),
        Some(3.0)
    );
    assert_eq!(
        sum(man.only_with_prefix(RowKind::Tensor, "y").ok()),
        Some(5.0)
    );
    assert!(man.only_with_prefix(RowKind::Tensor, "x").is_err());
    assert!(man.only_with_prefix(RowKind::Input, "y").is_err());
    assert_eq!((man.skipped_nodes, man.skipped_inputs), (1, 0));
}

/// Every header line the sets carry, spelled as they spell it (long values
/// shortened): a known key fills its field (`-c` and `-t` out of `# flags`, the
/// step out of `# tokens` and `# decode_pos`), every other `#` line is kept
/// verbatim in file order, and a known key twice or a value that does not parse
/// is an error.
#[test]
fn header_lines_fill_their_fields_or_are_kept() {
    let title = "# dump_ref — ik_llama.cpp intermediate tensors, raw f32, little-endian";
    let model = "# model\t/models/M/M-00001-of-00009.gguf";
    let schedule = "# prefill_schedule\tevery-node — each node was asked for and computed alone";
    let columns = [
        "# kind\tname\toccurrence\ttype\tne0\tne1\tne2\tne3\tbytes\tsum\top\tcontig\tlogical\tsrc0\tsrc1",
        "# int\tname\toccurrence\tof\ttype\ttwin\tlayout\tcount\tbytes\tsum\tabsmax\tfile",
        "# input\tname\toccurrence\ttype\tne0\tne1\tne2\tne3\tbytes\tsum\top\tcontig\tlogical\tsrc0\tsrc1",
    ];
    let row = "tensor\tinp_embd\t0\tf32\t2\t1\t1\t1\t8\t0.5\tGET_ROWS";
    let step = [
        title,
        model,
        "# build\t49ef19d0",
        "# arch\tdeepseek41",
        "# model_file\tM-00001-of-00009.gguf",
        "# tokens\t5,19415,271",
        "# flags\t-m /models/M/M-00001-of-00009.gguf --expect-arch deepseek41 --tokens-file /d/c.ids \
         --tokens-count 3 -ngl 0 -c 2048 -t 32 --defer-experts --decode-step --no-fused-idx-topk",
        "# tokens_file\t/d/c.ids",
        "# tokens_file_sha256\tf7785d0f",
        "# tokens_count\t3",
        "# prefill\t2",
        "# decode_pos\t2",
        schedule,
        "# state_inputs\tpersistent leaves the step reads are input rows",
        "# fused_idx_topk\t0",
        columns[0],
        columns[1],
        columns[2],
        row,
        "# complete\t1\t0",
    ];
    let man = manifest(&step).unwrap();
    let h = &man.header;
    assert_eq!(h.arch.as_deref(), Some("deepseek41"));
    assert_eq!(h.build.as_deref(), Some("49ef19d0"));
    assert_eq!(h.complete, Some((1, 0)));
    assert_eq!(h.model_file.as_deref(), Some("M-00001-of-00009.gguf"));
    assert_eq!(h.tokens.as_deref(), Some(&[5, 19415, 271][..]));
    assert_eq!(h.tokens_file.as_deref(), Some("/d/c.ids"));
    assert_eq!(h.tokens_file_sha256.as_deref(), Some("f7785d0f"));
    assert_eq!(h.tokens_count, Some(3));
    assert!(h
        .flags
        .as_deref()
        .is_some_and(|f| f.ends_with("--no-fused-idx-topk")));
    assert_eq!((h.ctx, h.threads), (Some(2048), Some(32)));
    assert_eq!((h.prefill, h.decode_pos), (Some(2), Some(2)));
    assert!(h.state_inputs.is_some());
    assert_eq!(h.fused_idx_topk, Some(false));
    assert_eq!(
        h.other,
        [title, model, schedule, columns[0], columns[1], columns[2]]
    );
    assert_eq!(
        man.step().unwrap(),
        (2, &[271][..], &[5, 19415][..])
    );
    assert_eq!(
        h.model().as_deref(),
        Some("/models/M/M-00001-of-00009.gguf")
    );

    // A set without the later lines, of 11-column rows; its step is the whole
    // sequence from position 0.
    let v2 = manifest(&[
        title,
        "# model\t/models/small/L.gguf",
        "# build\tc10fbbcc",
        "# tokens\t100000,549",
        "# kind\tname\toccurrence\ttype\tne0\tne1\tne2\tne3\tbytes\tsum\top",
        row,
        "# complete\t1\t0",
    ])
    .unwrap();
    let h = &v2.header;
    assert_eq!(
        (h.arch.as_deref(), h.build.as_deref()),
        (None, Some("c10fbbcc"))
    );
    assert_eq!(
        (
            h.model_file.as_deref(),
            h.flags.as_deref(),
            h.ctx,
            h.threads
        ),
        (None, None, None, None)
    );
    assert_eq!(
        (h.prefill, h.decode_pos, h.fused_idx_topk),
        (None, None, None)
    );
    assert_eq!(h.other.len(), 3);
    assert_eq!(
        v2.step().unwrap(),
        (0, &[100000, 549][..], &[][..])
    );

    for bad in [
        "# tokens\t5,x",
        "# flags\t-m M.gguf -c",
        "# flags\t-m M.gguf -t x -c 512",
        "# fused_idx_topk\tyes",
        "# decode_pos\t-1",
        "# build\tc10fbbcc",
    ] {
        let lines = ["# build\tc10fbbcc", bad, row];
        assert!(manifest(&lines).is_err(), "{bad:?} parsed");
    }
}

/// The mask reader maps `0.0` and `-inf` to their f16 bits and refuses every
/// other value (`-0.0` and NaN too) naming the first offending value, a row that
/// is not f16, and one whose plain file is not its logical order.
#[test]
fn mask_bits_take_zero_and_minus_infinity_only() {
    let node = "tensor\tx\t0\tf32\t1\t1\t1\t1\t4\t0\tNONE";
    let row = "input\tkq_mask\t0\tf16\t2\t2\t1\t1\t16\t-inf\tNONE\t1\t0\t-\t-";
    let man = manifest(&[node, row]).unwrap();
    let ninf = f32::NEG_INFINITY;
    let good = f32_file(&[0.0, ninf, ninf, 0.0]);
    assert_eq!(
        mask_bits(&man.inputs[0], &good).unwrap(),
        [0x0000, 0xfc00, 0xfc00, 0x0000]
    );
    for bad in [-0.0f32, 1.0, f32::NAN] {
        let file = f32_file(&[0.0, ninf, bad, bad]);
        assert_eq!(
            mask_bits(&man.inputs[0], &file),
            Err(FileError::NotMask(2))
        );
    }
    let not_f16 = manifest(&[node, &row.replace("\tf16\t", "\tf32\t")]).unwrap();
    assert!(mask_bits(&not_f16.inputs[0], &good).is_err());
    let flat = manifest(&[node, &row.replace("NONE\t1\t0", "NONE\t0\t0")]).unwrap();
    assert!(mask_bits(&flat.inputs[0], &good).is_err());
}

/// The widened-f16 reader returns the rows asked for, in the order asked, as f16
/// bits, and reads no other row: a row holding a value no half widens to is
/// refused when asked for and passes unread otherwise; a row past the tensor is
/// an error. The whole-tensor reader asks for every row. Both refuse a row whose
/// plain file is not its logical order.
#[test]
fn widened_f16_bits_read_only_the_rows_asked_for() {
    let row = "tensor\tcache\t0\tf16\t2\t3\t1\t1\t24\t0\tVIEW\t1\t0\t-\t-";
    let man = manifest(&[row]).unwrap();
    let cache = &man.tensors[0];
    let min_normal = 2.0f32.powi(-14);
    let raw = f32_file(&[1.0, -2.0, 0.1, 0.5, 65504.0, min_normal]);
    assert_eq!(
        widened_f16_bits(cache, &raw, &[2, 0]).unwrap(),
        [0x7bff, 0x0400, 0x3c00, 0xc000]
    );
    assert!(widened_f16_bits(cache, &raw, &[1]).is_err());
    assert!(widened_f16_bits(cache, &raw, &[3]).is_err());
    let not_f16 = manifest(&[&row.replace("\tf16\t", "\tf32\t")]).unwrap();
    assert!(widened_f16_bits(&not_f16.tensors[0], &raw, &[0]).is_err());

    assert!(widened_f16_rows(cache, &raw).is_err());
    let raw = f32_file(&[1.0, -2.0, 0.5, 0.25, 65504.0, min_normal]);
    assert_eq!(
        widened_f16_rows(cache, &raw).unwrap(),
        [0x3c00, 0xc000, 0x3800, 0x3400, 0x7bff, 0x0400]
    );
    let view = manifest(&[&row.replace("VIEW\t1\t0", "VIEW\t0\t0")]).unwrap();
    assert!(widened_f16_rows(&view.tensors[0], &raw).is_err());
    assert!(widened_f16_bits(&view.tensors[0], &raw, &[0]).is_err());
}

/// A set opened through the table is of the table's architecture: a manifest
/// naming another is an error naming both. One without the `# arch` line is
/// accepted by `open` and refused by `open_named`.
#[test]
fn a_set_of_another_architecture_is_refused() {
    let row = "tensor\tx\t0\tf32\t1\t1\t1\t1\t4\t0\tNONE";
    let man = |arch: Option<&str>| match arch {
        Some(a) => manifest(&[&format!("# arch\t{a}"), row]).unwrap(),
        None => manifest(&[row]).unwrap(),
    };
    let o = for_arch(Arch::Deepseek41);
    let err = o.check_arch(&man(Some("deepseek2"))).unwrap_err();
    assert_eq!(err.set.as_deref(), Some("deepseek2"));
    assert_eq!(err.table.name(), "deepseek41");
    assert!(o.check_arch(&man(Some("deepseek41"))).is_ok());
    assert!(o.check_arch(&man(None)).is_ok());

    let open = |arch_line: &str| o.open_named(&format!("{arch_line}{row}\n"));
    assert!(open("# arch\tdeepseek41\n").is_ok());
    match open("# arch\tdeepseek2\n") {
        Err(OpenError::Arch(e)) => {
            assert_eq!(e.set.as_deref(), Some("deepseek2"));
            assert_eq!(e.table.name(), "deepseek41");
        }
        _ => panic!("a set of another architecture opened"),
    }
    assert!(open("").is_err());
    assert!(o.open(RefSet::Cpu, &format!("{row}\n")).is_ok());
    assert!(matches!(
        o.open(RefSet::Cuda, &format!("{row}\n")),
        Err(OpenError::NoSet)
    ));
    assert!(matches!(
        o.open(RefSet::Cpu, "# arch\tqwen3moe\ntensor\tx\n"),
        Err(OpenError::Manifest(_))
    ));
}

/// The table's names.
#[test]
fn every_architecture_has_a_row() {
    let d2 = for_arch(Arch::Deepseek2);
    assert_eq!(d2.set_name(RefSet::Cuda), Some("ref_cuda_v2"));
    assert_eq!(d2.set_name(RefSet::Cpu), Some("ref"));
    assert_eq!(d2.set_name(RefSet::LegacyCuda), Some("ref_cuda"));
    assert_eq!(d2.taps, ["l_out-0", "l_out-1", "l_out-26"]);
    let d41 = for_arch(Arch::Deepseek41);
    assert_eq!(d41.set_name(RefSet::Cuda), None);
    assert_eq!(d41.step_sets.len(), 6);
    assert_eq!(Arch::Qwen3moe.name(), "qwen3moe");
}

/// Each way a manifest does not read.
#[test]
fn a_bad_manifest_names_its_line() {
    let row = "tensor\tx\t0\tf32\t1\t1\t1\t1\t4\t0\tNONE";
    assert!(matches!(
        manifest(&["# build\tx"]),
        Err(ManifestError::NoTensorRows)
    ));
    assert!(matches!(
        manifest(&[row, "what\tx"]),
        Err(ManifestError::Line(2, LineError::UnknownKind))
    ));
    assert!(matches!(
        manifest(&[row, "tensor\tx\t0\tf32"]),
        Err(ManifestError::Line(2, LineError::Width))
    ));
    assert!(matches!(
        manifest(&["tensor\tx\tone\tf32\t1\t1\t1\t1\t4\t0\tNONE"]),
        Err(ManifestError::Line(1, _))
    ));
    assert!(matches!(
        manifest(&[row, "skip\ty\t0"]),
        Err(ManifestError::Line(2, LineError::Width))
    ));
}

/// A step set's step is the last token after its prefill.
#[test]
fn a_step_is_the_last_token_after_its_prefill() {
    let row = "tensor\tx\t0\tf32\t1\t1\t1\t1\t4\t0\tNONE";
    let none = manifest(&[row]).unwrap();
    assert_eq!(none.step(), Err(StepError::NoTokens));
    let off = manifest(&["# tokens\t1,2,3", "# prefill\t1", "# decode_pos\t2", row]).unwrap();
    assert_eq!(off.step(), Err(StepError::NotAfterPrefill));
    let early = manifest(&["# tokens\t1,2,3", "# decode_pos\t1", row]).unwrap();
    assert_eq!(early.step(), Err(StepError::NotLast));
    let last = manifest(&["# tokens\t1,2,3", "# decode_pos\t2", row]).unwrap();
    let (pos, step, before) = last.step().unwrap();
    assert_eq!(pos as usize, before.len());
    assert_eq!([before, step].concat(), [1, 2, 3]);
}

/// A plain file reads as its row says, and each way it does not.
#[test]
fn a_tensor_file_is_what_its_row_says() {
    let man = manifest(&[
        "tensor\tx\t0\tf32\t2\t1\t1\t1\t8\t0\tADD\t1\t0\t-\t-",
        "tensor\tv\t0\tf32\t2\t1\t1\t1\t8\t0\tVIEW\t0\t1\t-\t-",
        "tensor\tw\t0\tf32\t2\t1\t1\t1\t8\t0\tVIEW\t0\t0\t-\t-",
        "tensor\ti\t0\ti32\t2\t1\t1\t1\t8\t0\tADD\t1\t0\t-\t-",
    ])
    .unwrap();
    let x = &man.tensors[0];
    let raw = f32_file(&[1.5, -2.0]);
    assert_eq!(
        ref_tensor_of(x, &raw).unwrap(),
        [1.5f32.to_bits(), (-2.0f32).to_bits()]
    );
    assert_eq!(
        ref_tensor_of(x, &f32_file(&[1.5, f32::INFINITY])),
        Err(FileError::NonFinite(1))
    );
    assert_eq!(ref_tensor_of(x, &raw[..4]), Err(FileError::FileBytes));
    assert!(plain_is_logical(x) && !plain_is_logical(&man.tensors[1]));
    assert_eq!(logical_source(x), Ok(Source::Plain));
    assert_eq!(logical_source(&man.tensors[1]), Ok(Source::Twin));
    assert_eq!(
        logical_source(&man.tensors[2]),
        Err(FileError::NotPlain)
    );
    assert!(ref_tensor_logical(&man.tensors[1], &raw).is_ok());
    assert!(ref_tensor_logical(&man.tensors[2], &raw).is_err());
}

/// An integer twin checks its count and its sum.
#[test]
fn an_integer_twin_sums_to_its_row() {
    let man = manifest(&[
        "tensor\tx\t0\tf32\t1\t1\t1\t1\t4\t0\tNONE",
        "int\tp\t0\tinput\ti32\ti32\tflat\t2\t8\t5\t7\tp.0.input.i32",
        "int\tq\t0\tinput\ti64\ti64\tflat\t1\t8\t-3\t3\tq.0.input.i64",
    ])
    .unwrap();
    let p: Vec<u8> = [7i32, -2].iter().flat_map(|v| v.to_le_bytes()).collect();
    assert_eq!(ref_ints_of(&man.ints[0], &p).unwrap(), [7, -2]);
    let wrong: Vec<u8> = [7i32, -1].iter().flat_map(|v| v.to_le_bytes()).collect();
    assert_eq!(ref_ints_of(&man.ints[0], &wrong), Err(FileError::Sum));
    assert_eq!(
        ref_ints_of(&man.ints[1], &(-3i64).to_le_bytes()).unwrap(),
        [-3]
    );
}

/// A dump's file names, and the stem rule.
#[test]
fn a_dump_names_its_files() {
    assert_eq!(dump_stem("a b/c (view)"), "a_b_c_(view)");
    assert_eq!(
        dump_file_name("q-0", 1, RowKind::Tensor, Layout::Flat, FileElem::F32),
        "q-0.1.f32"
    );
    assert_eq!(
        dump_file_name("p", 0, RowKind::Input, Layout::Logical, FileElem::I32),
        "p.0.input.logical.i32"
    );
}
