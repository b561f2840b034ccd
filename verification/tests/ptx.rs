use gpu_gates::gate::{no_local_depot, shape_line, MissingEntry};
use gpu_gates::ptx::{
    body, calls, count, counts, entries, find, modules, object_bundles, reqntid, scan,
    section_bundles, Bundle, BundleError, Module, Payload, PayloadKind,
};
use oxide_artifacts::{
    build_artifact_blob, build_host_object_for_target, ArtifactBundleSpec, ArtifactEntryKind,
    ArtifactEntrySpec, ArtifactPayloadKind, ArtifactPayloadSpec,
};

/// Three entries, the middle one spilling, the last one with no `.reqntid` at
/// all.
const BLOB: &[u8] = b"//
.visible .entry alpha(
  .param .u64 alpha_param_0
)
.reqntid 256, 1, 1
{
  fma.rn.f32 %f1, %f2, %f3, %f4;
  cvt.f32.f16 %f5, %rs1;
  cvt.f32.f16 %f6, %rs2;
  ret;
}
.visible .entry beta(
  .param .u64 beta_param_0
)
.reqntid 32, 1, 1
{
  .local .align 4 .b8 __local_depot1[96];
  st.local.b32 [%rd1], %r1;
  st.local.b32 [%rd2], %r2;
  ld.local.b32 %r3, [%rd1];
  fma.rm.f32 %f1, %f2, %f3, %f4;
  ret;
}
.visible .entry gamma(
  .param .u64 gamma_param_0
)
{
  ret;
}
";

/// An entry that calls a device function, the function's definition between it
/// and the next entry, and an entry with a predicated call.
const WITH_FUNC: &[u8] = b"//
.visible .entry alpha(
  .param .u64 alpha_param_0
)
.reqntid 256, 1, 1
{
  prototype_0 : .callprototype (.param .b32 _) _ (.param .b32 _);
  fma.rn.f32 %f1, %f2, %f3, %f4;
  { // callseq 0, 0
  .param .b32 retval0;
  call.uni (retval0), helper, (param0);
  } // callseq 0
  ret;
}
.func  (.param .b32 func_retval0) helper(
  .param .b32 helper_param_0
)
{
  fma.rn.f32 %f1, %f2, %f3, %f4;
  fma.rn.f32 %f5, %f6, %f7, %f8;
  cvt.f32.f16 %f9, %rs1;
  clz.b32 %r1, %r2;
  st.local.b32 [%rd1], %r1;
  ret;
}
.visible .entry beta(
  .param .u64 beta_param_0
)
{
  @%p1 call.uni helper, ();
  ret;
}
";

/// A PTX payload whose length is a multiple of 8, holding two entries.
const PTX8: &[u8] = b"//
// Two entries whose text is a multiple of 8 bytes long, so the container
// pads nothing after it.
//
.version 8.7
.target sm_86
.address_size 64

.visible .entry alpha(
  .param .u64 alpha_param_0
)
.reqntid 256, 1, 1
{
  fma.rn.f32 %f1, %f2, %f3, %f4;
  ret;
}
.visible .entry beta(
  .param .u64 beta_param_0
)
.reqntid 32, 1, 1
{
  st.local.b32 [%rd1], %r10;
  ret;
}
";

/// A text as the one module of a bundle.
fn one(text: &[u8]) -> Vec<Bundle> {
    vec![Bundle {
        name: "test".to_string(),
        payloads: vec![Payload {
            kind: PayloadKind::Ptx,
            bytes: text.to_vec(),
        }],
    }]
}

/// One bundle's blob with `ptx` as its only payload, written by the container's
/// own writer.
fn bundle_blob(name: &str, ptx: &[u8], symbols: &[&str]) -> Vec<u8> {
    let mut spec = ArtifactBundleSpec::new(name, "sm_86").with_payload(ArtifactPayloadSpec::new(
        ArtifactPayloadKind::Ptx,
        "bloomery_gpu.ptx",
        ptx,
    ));
    for &s in symbols {
        spec = spec.with_entry(ArtifactEntrySpec::new(s, ArtifactEntryKind::Kernel));
    }
    build_artifact_blob(&spec).expect("a valid bundle spec")
}

#[test]
fn lists_every_entry_in_declaration_order() {
    let b = one(BLOB);
    assert_eq!(entries(&modules(&b)), ["alpha", "beta", "gamma"]);
}

/// An entry's body must stop at the next entry, or the counts of the whole tail
/// land on the first kernel scanned.
#[test]
fn body_stops_at_the_next_entry() {
    let bundles = one(BLOB);
    let mods = modules(&bundles);
    let a = body(&mods, "alpha").expect("alpha");
    assert!(find(a, b"__local_depot").is_none());
    assert_eq!(count(a, b"ld.local"), 0);
    let b = body(&mods, "beta").expect("beta");
    assert!(find(b, b"gamma").is_none());
    assert_eq!(body(&mods, "delta"), None);
}

/// A body ends at a `.func` as it ends at the next entry: the device function's
/// instructions are its own, not the entry's before it.
#[test]
fn body_stops_at_a_device_function() {
    let bundles = one(WITH_FUNC);
    let mods = modules(&bundles);
    assert_eq!(entries(&mods), ["alpha", "beta"]);
    let a = body(&mods, "alpha").expect("alpha");
    assert!(
        find(a, b"helper(").is_none(),
        "alpha's body runs into the function: {:?}",
        String::from_utf8_lossy(a)
    );
    let c = counts(&mods, "alpha").expect("alpha");
    assert_eq!((c.fma, c.cvt_f16, c.st_local), (1, 0, 0));
    assert_eq!(count(a, b"clz."), 0);
    let b = counts(&mods, "beta").expect("beta");
    assert_eq!((b.fma, b.cvt_f16), (0, 0));
}

/// A call is counted once per instruction (plain, `.uni` or predicated) and
/// never for the prototype or the callseq comments around it.
#[test]
fn counts_the_calls_an_entry_makes() {
    let with = one(WITH_FUNC);
    let mods = modules(&with);
    let plain = one(BLOB);
    assert_eq!(counts(&mods, "alpha").expect("alpha").calls, 1);
    assert_eq!(counts(&mods, "beta").expect("beta").calls, 1);
    assert_eq!(counts(&modules(&plain), "alpha").expect("alpha").calls, 0);
    assert_eq!(calls(b"call foo, ();\n\tcall.uni bar, ();"), 2);
    assert_eq!(calls(b"// callseq 1\n.callprototype\n_Z6recallv"), 0);
}

#[test]
fn reads_the_block_width_and_its_absence() {
    let bundles = one(BLOB);
    let mods = modules(&bundles);
    assert_eq!(reqntid(body(&mods, "alpha").unwrap()), Some(256));
    assert_eq!(reqntid(body(&mods, "beta").unwrap()), Some(32));
    assert_eq!(reqntid(body(&mods, "gamma").unwrap()), None);
}

/// The counters, including the spelling trap: `fma.f32` matches nothing in real
/// PTX, so the prefix is what the counter uses.
#[test]
fn counts_the_shapes_of_one_entry() {
    let bundles = one(BLOB);
    let mods = modules(&bundles);
    let a = counts(&mods, "alpha").expect("alpha");
    assert_eq!(a.reqntid, Some(256));
    assert!(!a.depot);
    assert_eq!((a.ld_local, a.st_local), (0, 0));
    assert_eq!((a.fma, a.cvt_f16), (1, 2));
    let b = counts(&mods, "beta").expect("beta");
    assert!(b.depot);
    assert_eq!((b.ld_local, b.st_local, b.fma), (1, 2, 1));
    assert_eq!(count(body(&mods, "alpha").unwrap(), b"fma.f32"), 0);
}

/// Depot first, then name.
#[test]
fn scan_puts_the_spilling_entries_first() {
    let bundles = one(BLOB);
    let names: Vec<String> = scan(&modules(&bundles))
        .into_iter()
        .map(|c| c.name)
        .collect();
    assert_eq!(names, ["beta", "alpha", "gamma"]);
}

#[test]
fn find_and_count_survive_degenerate_needles() {
    assert_eq!(find(b"abc", b""), None);
    assert_eq!(find(b"abc", b"abcd"), None);
    assert_eq!(count(b"abc", b"abcd"), 0);
    assert_eq!(count(b"aaaa", b"aa"), 3);
}

/// The container stores a payload with its length and pads it to 8 bytes only,
/// so a payload of 8k bytes is followed directly by the next record. The last
/// entry's body must end where its payload ends.
#[test]
fn last_body_ends_where_its_payload_ends() {
    assert_eq!(PTX8.len() % 8, 0, "the case needs a payload of 8k bytes");
    let blob = bundle_blob("bloomery-gpu", PTX8, &["alpha", "beta"]);
    let end = find(&blob, PTX8).expect("the payload sits in the blob") + PTX8.len();
    assert_ne!(
        blob[end], 0,
        "a NUL follows the payload: not the case under test"
    );
    let bundles = section_bundles(&blob).expect("the container parses");
    let mods = modules(&bundles);
    assert_eq!(mods.len(), 1);
    assert_eq!((mods[0].bundle(), mods[0].text()), ("bloomery-gpu", PTX8));
    assert_eq!(entries(&mods), ["alpha", "beta"]);
    let b = body(&mods, "beta").expect("beta");
    assert!(
        PTX8.ends_with(b),
        "the last body runs past its payload, ending {:?}",
        String::from_utf8_lossy(&b[b.len().saturating_sub(24)..])
    );
    assert_eq!(b.as_ptr_range().end, mods[0].text().as_ptr_range().end);
}

/// Bundles concatenate in one section; a body never runs from one bundle's
/// module into the next.
#[test]
fn each_bundle_is_its_own_module() {
    let gamma: &[u8] = b".version 8.7\n.target sm_86\n\n.visible .entry gamma(\n)\n{\n  ret;\n}\n";
    let mut section = bundle_blob("first", PTX8, &["alpha", "beta"]);
    section.extend_from_slice(&bundle_blob("second", gamma, &["gamma"]));
    let bundles = section_bundles(&section).expect("both blobs parse");
    let mods = modules(&bundles);
    let names: Vec<&str> = mods.iter().map(Module::bundle).collect();
    assert_eq!(names, ["first", "second"]);
    assert_eq!(entries(&mods), ["alpha", "beta", "gamma"]);
    let b = body(&mods, "beta").expect("beta");
    assert!(PTX8.ends_with(b));
    assert_eq!(reqntid(body(&mods, "gamma").expect("gamma")), None);
}

/// A bundle that carries a Cubin beside its PTX is refused: the loader runs the
/// Cubin, so the PTX is not the device code. A Cubin-only bundle is no PTX
/// module at all, and is not an error.
#[test]
fn a_bundle_whose_ptx_a_cubin_shadows_is_refused() {
    let cubin: &[u8] = b"\x7fELF not a real cubin";
    let both = build_artifact_blob(
        &ArtifactBundleSpec::new("shadowed", "sm_86")
            .with_payload(ArtifactPayloadSpec::new(
                ArtifactPayloadKind::Ptx,
                "bloomery_gpu.ptx",
                PTX8,
            ))
            .with_payload(ArtifactPayloadSpec::new(
                ArtifactPayloadKind::Cubin,
                "bloomery_gpu.cubin",
                cubin,
            )),
    )
    .expect("a valid bundle spec");
    match section_bundles(&both) {
        Err(BundleError::Shadowed(names)) => assert_eq!(names, ["shadowed"]),
        Err(BundleError::Container(e)) => panic!("{e:?}"),
        Ok(_) => panic!("a PTX shadowed by a Cubin"),
    }
    let only = build_artifact_blob(&ArtifactBundleSpec::new("cubin", "sm_86").with_payload(
        ArtifactPayloadSpec::new(ArtifactPayloadKind::Cubin, "bloomery_gpu.cubin", cubin),
    ))
    .expect("a valid bundle spec");
    let bundles = section_bundles(&only).expect("a Cubin-only bundle");
    assert!(modules(&bundles).is_empty());
}

/// A section the parser rejects is an error, never an empty list; a section of
/// zero padding alone is a container with no bundle.
#[test]
fn a_rejected_container_is_an_error_not_an_empty_scan() {
    let blob = bundle_blob("bloomery-gpu", PTX8, &["alpha", "beta"]);
    assert!(section_bundles(&blob[..blob.len() - 8]).is_err());
    assert!(section_bundles(b"not an oxide-artifacts container at all").is_err());
    let empty = section_bundles(&[0u8; 32]).expect("zero padding parses");
    assert!(modules(&empty).is_empty());
}

/// An object file's section gives the bundles its bytes give; a file that is no
/// object is an error, and a shadowed bundle is refused there too.
#[test]
fn an_object_files_bundles_are_its_sections() {
    let blob = bundle_blob("bloomery-gpu", PTX8, &["alpha", "beta"]);
    let object = build_host_object_for_target(&blob, "x86_64-unknown-linux-gnu", None)
        .expect("an object file");
    let bundles = object_bundles(&object).expect("the object's section parses");
    let mods = modules(&bundles);
    assert_eq!(mods.len(), 1);
    assert_eq!((mods[0].bundle(), mods[0].text()), ("bloomery-gpu", PTX8));
    assert!(object_bundles(PTX8).is_err());
    let both = build_artifact_blob(
        &ArtifactBundleSpec::new("both", "sm_86")
            .with_payload(ArtifactPayloadSpec::new(
                ArtifactPayloadKind::Ptx,
                "k.ptx",
                PTX8,
            ))
            .with_payload(ArtifactPayloadSpec::new(
                ArtifactPayloadKind::Cubin,
                "k.cubin",
                b"\x7fELF",
            )),
    )
    .expect("a valid bundle spec");
    let object = build_host_object_for_target(&both, "x86_64-unknown-linux-gnu", None)
        .expect("an object file");
    assert!(matches!(
        object_bundles(&object),
        Err(BundleError::Shadowed(names)) if names == ["both"]
    ));
}

/// The payload kinds come back as the container wrote them.
#[test]
fn payloads_keep_their_kind() {
    let blob = build_artifact_blob(
        &ArtifactBundleSpec::new("ir", "sm_86")
            .with_payload(ArtifactPayloadSpec::new(
                ArtifactPayloadKind::NvvmIr,
                "k.ll",
                b"define",
            ))
            .with_payload(ArtifactPayloadSpec::new(
                ArtifactPayloadKind::Ltoir,
                "k.ltoir",
                b"lto bytes",
            )),
    )
    .expect("a valid bundle spec");
    let bundles = section_bundles(&blob).expect("the container parses");
    assert_eq!(bundles.len(), 1);
    assert_eq!(bundles[0].name, "ir");
    assert_eq!(bundles[0].payload(PayloadKind::NvvmIr), Some(&b"define"[..]));
    assert_eq!(
        bundles[0].payload(PayloadKind::Ltoir),
        Some(&b"lto bytes"[..])
    );
    assert_eq!(bundles[0].payload(PayloadKind::Ptx), None);
    assert!(modules(&bundles).is_empty());
}

/// The depot check names the entry no module declares, and fails on one that
/// spills.
#[test]
fn a_spilling_entry_fails_the_depot_check() {
    let bundles = one(BLOB);
    let mods = modules(&bundles);
    assert!(matches!(no_local_depot(&mods, &["alpha", "gamma"]), Ok(true)));
    assert!(matches!(no_local_depot(&mods, &["alpha", "beta"]), Ok(false)));
    assert!(matches!(
        no_local_depot(&mods, &["alpha", "delta"]),
        Err(MissingEntry(1))
    ));
    let c = counts(&mods, "beta").expect("beta");
    assert_eq!(
        shape_line(&c),
        "shape kernel=beta local_depot=true ld_local=1 st_local=2"
    );
}
