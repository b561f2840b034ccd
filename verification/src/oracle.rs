//! The oracle table, one row per architecture: which reference dump sets the
//! gates read and the tap names more than one gate asks their manifests for.
//! These are values that differ per architecture, so each is a row here and
//! not a literal in each binary; the readers of a set stay shared.
use crate::manifest::opt_chars;
use crate::manifest::ManifestError;
use crate::set::parsed;
use crate::set::RefManifest;
use crate::set::SetView;
use crate::text;
use vstd::prelude::*;

verus! {

/// The architectures the engine names.
#[derive(Clone, Copy, Debug, PartialEq, Eq, Structural)]
pub enum Arch {
    Deepseek2,
    Deepseek41,
    Qwen3moe,
}

impl Arch {
    /// The name in a model file's header.
    pub open spec fn spelling(self) -> Seq<char> {
        match self {
            Arch::Deepseek2 => "deepseek2"@,
            Arch::Deepseek41 => "deepseek41"@,
            Arch::Qwen3moe => "qwen3moe"@,
        }
    }

    /// The name in a model file's header.
    pub fn name(self) -> (r: &'static str)
        ensures
            r@ == self.spelling(),
    {
        match self {
            Arch::Deepseek2 => "deepseek2",
            Arch::Deepseek41 => "deepseek41",
            Arch::Qwen3moe => "qwen3moe",
        }
    }
}

/// One architecture's reference sets and shared tap names. A set name is a
/// directory under the data directory; a set the architecture has none of is
/// `None`, never a name.
#[derive(Clone, Debug)]
pub struct Oracle {
    /// The architecture the sets were dumped from.
    pub arch: Arch,
    /// ik's CUDA dump with the v2 manifest columns and logical twins.
    pub cuda_set: Option<&'static str>,
    /// ik's CPU dump.
    pub cpu_set: &'static str,
    /// The pre-v2 CUDA dump: plain files only, no logical twins.
    pub legacy_cuda_set: Option<&'static str>,
    /// The decode-step sets: each one step after a prefill, the step's
    /// position in its `# decode_pos`. Opened with [`Oracle::open_named`].
    pub step_sets: Vec<&'static str>,
    /// Tap names asked of a manifest by more than one gate binary. A name that
    /// only one gate reads stays in that gate.
    pub taps: Vec<&'static str>,
}

/// Which of a row's sets.
#[derive(Clone, Copy, Debug, PartialEq, Eq, Structural)]
pub enum RefSet {
    Cuda,
    Cpu,
    LegacyCuda,
}

/// Why a set does not open.
#[derive(Clone, Debug)]
pub enum OpenError {
    /// The architecture has no such set.
    NoSet,
    /// The manifest does not read.
    Manifest(ManifestError),
    /// The manifest's `# arch` line names another architecture, or, of a set
    /// opened by name, is missing.
    Arch(OtherArch),
}

/// A set that is not of a row's architecture: what its `# arch` line names, and
/// the row's.
#[derive(Clone, Debug)]
pub struct OtherArch {
    pub set: Option<String>,
    pub table: Arch,
}

impl OtherArch {
    /// The refusal names a line and a row's architecture.
    pub open spec fn is_of(&self, arch: Option<String>, table: Arch) -> bool {
        opt_chars(self.set) == opt_chars(arch) && self.table == table
    }
}

/// The names of a list.
pub open spec fn names(v: Seq<&'static str>) -> Seq<Seq<char>> {
    v.map_values(|s: &'static str| s@)
}

/// A name, where there is one.
pub open spec fn opt_name(s: Option<&'static str>) -> Option<Seq<char>> {
    match s {
        Some(s) => Some(s@),
        None => None,
    }
}

/// The CUDA set of an architecture.
pub open spec fn cuda_set_of(a: Arch) -> Option<Seq<char>> {
    match a {
        Arch::Deepseek2 => Some("ref_cuda_v2"@),
        Arch::Deepseek41 => None,
        Arch::Qwen3moe => Some("ref_cuda_qwen3moe"@),
    }
}

/// The CPU set of an architecture.
pub open spec fn cpu_set_of(a: Arch) -> Seq<char> {
    match a {
        Arch::Deepseek2 => "ref"@,
        Arch::Deepseek41 => "ref_deepseek41"@,
        Arch::Qwen3moe => "ref_qwen3moe"@,
    }
}

/// The pre-v2 CUDA set of an architecture.
pub open spec fn legacy_set_of(a: Arch) -> Option<Seq<char>> {
    match a {
        Arch::Deepseek2 => Some("ref_cuda"@),
        _ => None,
    }
}

/// The decode-step sets of an architecture. Of deepseek41: step4 at an even
/// position, where no csa group completes; d1 at 301 and d2 at 1,025, where
/// one does; d1 and d2 once more with the indexer's scores and top-k as nodes
/// of their own; d1n at 301 with the file's top-k, where neither stream builds
/// an indexer.
pub open spec fn step_sets_of(a: Arch) -> Seq<Seq<char>> {
    match a {
        Arch::Deepseek2 => seq![],
        Arch::Deepseek41 => seq![
            "ref_deepseek41_step4_every_node"@,
            "ref_deepseek41_d1_every_node"@,
            "ref_deepseek41_d1_unfused_every_node"@,
            "ref_deepseek41_d1n_every_node"@,
            "ref_deepseek41_d2_every_node"@,
            "ref_deepseek41_d2_unfused_every_node"@,
        ],
        Arch::Qwen3moe => seq!["ref_qwen3moe_step4_every_node"@],
    }
}

/// The shared tap names of an architecture: of deepseek2 the residuals of the
/// dense block, the first routed block and the last block.
pub open spec fn taps_of(a: Arch) -> Seq<Seq<char>> {
    match a {
        Arch::Deepseek2 => seq!["l_out-0"@, "l_out-1"@, "l_out-26"@],
        _ => seq![],
    }
}

impl Oracle {
    /// The row is an architecture's.
    pub open spec fn is_of(&self, a: Arch) -> bool {
        &&& self.arch == a
        &&& opt_name(self.cuda_set) == cuda_set_of(a)
        &&& self.cpu_set@ == cpu_set_of(a)
        &&& opt_name(self.legacy_cuda_set) == legacy_set_of(a)
        &&& names(self.step_sets@) == step_sets_of(a)
        &&& names(self.taps@) == taps_of(a)
    }

    /// The name of a set, where the architecture has it.
    pub open spec fn named(&self, which: RefSet) -> Option<&'static str> {
        match which {
            RefSet::Cuda => self.cuda_set,
            RefSet::Cpu => Some(self.cpu_set),
            RefSet::LegacyCuda => self.legacy_cuda_set,
        }
    }

    /// The name of set `which`; `None` of an architecture without that set.
    pub fn set_name(&self, which: RefSet) -> (r: Option<&'static str>)
        ensures
            r == self.named(which),
    {
        match which {
            RefSet::Cuda => self.cuda_set,
            RefSet::Cpu => Some(self.cpu_set),
            RefSet::LegacyCuda => self.legacy_cuda_set,
        }
    }

    /// Whether a manifest's `# arch` line is this row's architecture.
    fn names_arch(&self, arch: &Option<String>, without: bool) -> (r: bool)
        ensures
            r == (match opt_chars(*arch) {
                Some(a) => a == self.arch.spelling(),
                None => without,
            }),
    {
        match arch {
            Some(a) => text::same_str(a.as_str(), self.arch.name()),
            None => without,
        }
    }

    /// A manifest's `# arch` line is this row's architecture or absent (a set
    /// dumped before the dumper wrote it).
    pub fn check_arch(&self, man: &RefManifest) -> (r: Result<(), OtherArch>)
        ensures
            match r {
                Ok(()) => opt_chars(man.header.arch) matches Some(a) ==> a
                    == self.arch.spelling(),
                Err(e) => e.is_of(man.header.arch, self.arch) && opt_chars(man.header.arch) is Some
                    && opt_chars(man.header.arch) != Some(self.arch.spelling()),
            },
    {
        if self.names_arch(&man.header.arch, true) {
            Ok(())
        } else {
            Err(self.other(&man.header.arch))
        }
    }

    /// The refusal of a set whose `# arch` line is not this row's.
    fn other(&self, arch: &Option<String>) -> (r: OtherArch)
        ensures
            r.is_of(*arch, self.arch),
    {
        let set: Option<String> = match arch {
            Some(a) => Some(text::string_of(text::chars_of(a.as_str()).as_slice())),
            None => None,
        };
        OtherArch { set, table: self.arch }
    }

    /// Opens set `which` from its manifest's text. A manifest whose `# arch`
    /// line names another architecture is an error; one without the line is
    /// accepted.
    pub fn open(&self, which: RefSet, s: &str) -> (r: Result<RefManifest, OpenError>)
        ensures
            match r {
                Ok(man) => self.named(which) is Some && man.wf() && parsed(s@) == Ok::<
                    SetView,
                    ManifestError,
                >(man@) && (man@.head.arch matches Some(a) ==> a == self.arch.spelling()),
                Err(OpenError::NoSet) => self.named(which) is None,
                Err(OpenError::Manifest(e)) => self.named(which) is Some && parsed(s@) == Err::<
                    SetView,
                    ManifestError,
                >(e),
                Err(OpenError::Arch(e)) => self.named(which) is Some && (parsed(s@) matches Ok(v)
                    && v.head.arch matches Some(a) && a != self.arch.spelling() && opt_chars(e.set)
                    == Some(a) && e.table == self.arch),
            },
    {
        if self.set_name(which).is_none() {
            return Err(OpenError::NoSet);
        }
        match RefManifest::parse(s) {
            Err(e) => Err(OpenError::Manifest(e)),
            Ok(man) => match self.check_arch(&man) {
                Ok(()) => Ok(man),
                Err(e) => Err(OpenError::Arch(e)),
            },
        }
    }

    /// Opens a set by name from its manifest's text: a decode-step set of
    /// `step_sets`, say. Its `# arch` line must name this table's
    /// architecture: every set opened by name was dumped after the dumper
    /// wrote that line, so one without it is not the set named.
    pub fn open_named(&self, s: &str) -> (r: Result<RefManifest, OpenError>)
        ensures
            match r {
                Ok(man) => man.wf() && parsed(s@) == Ok::<SetView, ManifestError>(man@)
                    && man@.head.arch == Some(self.arch.spelling()),
                Err(OpenError::NoSet) => false,
                Err(OpenError::Manifest(e)) => parsed(s@) == Err::<SetView, ManifestError>(e),
                Err(OpenError::Arch(e)) => parsed(s@) matches Ok(v) && v.head.arch != Some(
                    self.arch.spelling(),
                ) && opt_chars(e.set) == v.head.arch && e.table == self.arch,
            },
    {
        match RefManifest::parse(s) {
            Err(e) => Err(OpenError::Manifest(e)),
            Ok(man) => if self.names_arch(&man.header.arch, false) {
                Ok(man)
            } else {
                Err(OpenError::Arch(self.other(&man.header.arch)))
            },
        }
    }
}

/// The table of architecture `a`: every architecture the engine names has a
/// row.
pub fn for_arch(a: Arch) -> (r: Oracle)
    ensures
        r.is_of(a),
{
    let r: Oracle = match a {
        Arch::Deepseek2 => Oracle {
            arch: Arch::Deepseek2,
            cuda_set: Some("ref_cuda_v2"),
            cpu_set: "ref",
            legacy_cuda_set: Some("ref_cuda"),
            step_sets: Vec::new(),
            taps: vec!["l_out-0", "l_out-1", "l_out-26"],
        },
        Arch::Deepseek41 => Oracle {
            arch: Arch::Deepseek41,
            cuda_set: None,
            cpu_set: "ref_deepseek41",
            legacy_cuda_set: None,
            step_sets: vec![
                "ref_deepseek41_step4_every_node",
                "ref_deepseek41_d1_every_node",
                "ref_deepseek41_d1_unfused_every_node",
                "ref_deepseek41_d1n_every_node",
                "ref_deepseek41_d2_every_node",
                "ref_deepseek41_d2_unfused_every_node",
            ],
            taps: Vec::new(),
        },
        Arch::Qwen3moe => Oracle {
            arch: Arch::Qwen3moe,
            cuda_set: Some("ref_cuda_qwen3moe"),
            cpu_set: "ref_qwen3moe",
            legacy_cuda_set: None,
            step_sets: vec!["ref_qwen3moe_step4_every_node"],
            taps: Vec::new(),
        },
    };
    assert(names(r.step_sets@) =~= step_sets_of(a));
    assert(names(r.taps@) =~= taps_of(a));
    r
}

/// No two architectures share a name, so a set that names its architecture
/// opens under one table only.
pub proof fn law_a_name_is_one_architecture(a: Arch, b: Arch)
    ensures
        a.spelling() == b.spelling() ==> a == b,
{
    reveal_strlit("deepseek2");
    reveal_strlit("deepseek41");
    reveal_strlit("qwen3moe");
    assert("deepseek2"@[0] == 'd' && "deepseek2"@.len() == 9);
    assert("deepseek41"@[0] == 'd' && "deepseek41"@.len() == 10);
    assert("qwen3moe"@.len() == 8);
}

/// An architecture's reference sets are its own: no set of one is a set of another,
/// and the kinds of one architecture are different sets.
pub proof fn law_a_set_is_one_architectures(a: Arch, b: Arch)
    ensures
        a != b ==> cpu_set_of(a) != cpu_set_of(b),
        a != b && cuda_set_of(a) is Some ==> cuda_set_of(a) != cuda_set_of(b),
        a != b && legacy_set_of(a) is Some ==> legacy_set_of(a) != legacy_set_of(b),
        cuda_set_of(a) != Some(cpu_set_of(b)),
        legacy_set_of(a) != Some(cpu_set_of(b)),
        legacy_set_of(a) is Some ==> legacy_set_of(a) != cuda_set_of(b),
        cuda_set_of(a) is None <==> a == Arch::Deepseek41,
        legacy_set_of(a) is Some <==> a == Arch::Deepseek2,
{
    reveal_strlit("ref");
    reveal_strlit("ref_cuda");
    reveal_strlit("ref_cuda_v2");
    reveal_strlit("ref_cuda_qwen3moe");
    reveal_strlit("ref_deepseek41");
    reveal_strlit("ref_qwen3moe");
    assert("ref"@.len() == 3 && "ref_cuda"@.len() == 8 && "ref_cuda_v2"@.len() == 11
        && "ref_cuda_qwen3moe"@.len() == 17 && "ref_deepseek41"@.len() == 14
        && "ref_qwen3moe"@.len() == 12);
}

/// A step set is named after its architecture's host set.
pub proof fn law_a_step_set_is_named_after_its_host_set(a: Arch, k: int)
    requires
        0 <= k < step_sets_of(a).len(),
    ensures
        crate::text::opens_with(step_sets_of(a)[k], cpu_set_of(a).push('_')),
        crate::text::ends_with(step_sets_of(a)[k], "_every_node"@),
{
    reveal_strlit("ref_deepseek41");
    reveal_strlit("ref_qwen3moe");
    reveal_strlit("_every_node");
    reveal_strlit("ref_deepseek41_step4_every_node");
    reveal_strlit("ref_deepseek41_d1_every_node");
    reveal_strlit("ref_deepseek41_d1_unfused_every_node");
    reveal_strlit("ref_deepseek41_d1n_every_node");
    reveal_strlit("ref_deepseek41_d2_every_node");
    reveal_strlit("ref_deepseek41_d2_unfused_every_node");
    reveal_strlit("ref_qwen3moe_step4_every_node");
    let s = step_sets_of(a)[k];
    let p = cpu_set_of(a).push('_');
    let e = "_every_node"@;
    assert(s.take(p.len() as int) =~= p);
    assert(s.skip(s.len() - e.len()) =~= e);
}

/// The newer architectures' sets are named after them, and the taps that are
/// compared are layers' outputs.
pub proof fn law_a_set_is_named_after_its_architecture(a: Arch, k: int)
    ensures
        a == Arch::Deepseek41 || a == Arch::Qwen3moe ==> cpu_set_of(a) == "ref_"@ + a.spelling(),
        a == Arch::Qwen3moe ==> cuda_set_of(a) == Some("ref_cuda_"@ + a.spelling()),
        legacy_set_of(a) matches Some(s) ==> cuda_set_of(a) == Some(s + "_v2"@),
        crate::text::opens_with(cpu_set_of(a), "ref"@),
        0 <= k < taps_of(a).len() ==> crate::text::opens_with(taps_of(a)[k], "l_out-"@),
        taps_of(a).len() > 0 <==> a == Arch::Deepseek2,
        taps_of(Arch::Deepseek2)[0] == "l_out-"@ + crate::text::decimal(0),
        taps_of(Arch::Deepseek2)[1] == "l_out-"@ + crate::text::decimal(1),
        taps_of(Arch::Deepseek2)[2] == "l_out-"@ + crate::text::decimal(26),
        taps_of(Arch::Deepseek2).len() == 3,
{
    reveal_strlit("ref");
    reveal_strlit("ref_");
    reveal_strlit("ref_cuda_");
    reveal_strlit("_v2");
    reveal_strlit("ref_cuda");
    reveal_strlit("ref_cuda_v2");
    reveal_strlit("ref_cuda_qwen3moe");
    reveal_strlit("ref_deepseek41");
    reveal_strlit("ref_qwen3moe");
    reveal_strlit("deepseek41");
    reveal_strlit("qwen3moe");
    reveal_strlit("l_out-");
    reveal_strlit("l_out-0");
    reveal_strlit("l_out-1");
    reveal_strlit("l_out-26");
    reveal_with_fuel(crate::text::decimal, 3);
    assert("ref_deepseek41"@ =~= "ref_"@ + "deepseek41"@);
    assert("ref_qwen3moe"@ =~= "ref_"@ + "qwen3moe"@);
    assert("ref_cuda_qwen3moe"@ =~= "ref_cuda_"@ + "qwen3moe"@);
    assert("ref_cuda_v2"@ =~= "ref_cuda"@ + "_v2"@);
    assert(cpu_set_of(a).take(3) =~= "ref"@);
    assert("l_out-0"@ =~= "l_out-"@ + crate::text::decimal(0));
    assert("l_out-1"@ =~= "l_out-"@ + crate::text::decimal(1));
    assert("l_out-26"@ =~= "l_out-"@ + crate::text::decimal(26));
    assert("l_out-0"@.take(6) =~= "l_out-"@);
    assert("l_out-1"@.take(6) =~= "l_out-"@);
    assert("l_out-26"@.take(6) =~= "l_out-"@);
}

} // verus!
