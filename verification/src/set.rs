//! A dump set's manifest as a gate holds it: read once per set, its rows taken
//! out by key, by name, by place.
use crate::count::count_where;
use crate::index;
use crate::index::first_key;
use crate::index::first_name;
use crate::index::keys;
use crate::index::repeated;
use crate::index::Keyed;
use crate::index::RowIndex;
use crate::index::RowKey;
use crate::manifest::empty_head;
use crate::manifest::header_after;
use crate::manifest::int_row_of;
use crate::manifest::parse_int_row;
use crate::manifest::parse_ref_row;
use crate::manifest::row_of;
use crate::manifest::HeadView;
use crate::manifest::IntRow;
use crate::manifest::IntView;
use crate::manifest::LineError;
use crate::manifest::ManifestError;
use crate::manifest::RefHeader;
use crate::manifest::RefRow;
use crate::manifest::RowView;
use crate::naming::Layout;
use crate::naming::RowKind;
use crate::text;
use vstd::prelude::*;
use vstd::slice::slice_subrange;

verus! {

// ------------------------------------------------------------ what a text says

/// What a manifest's lines say.
pub ghost struct SetView {
    pub head: HeadView,
    pub tensors: Seq<RowView>,
    pub inputs: Seq<RowView>,
    /// Per input row, the position among the tensor rows of the first one that
    /// follows it in the file; `None` when none does.
    pub touchers: Seq<Option<usize>>,
    pub ints: Seq<IntView>,
    pub skipped_nodes: nat,
    pub skipped_inputs: nat,
}

/// The set of no lines.
pub open spec fn empty_set() -> SetView {
    SetView {
        head: empty_head(),
        tensors: seq![],
        inputs: seq![],
        touchers: seq![],
        ints: seq![],
        skipped_nodes: 0,
        skipped_inputs: 0,
    }
}

/// The inputs that no tensor row has followed yet get this one.
pub open spec fn settled(touchers: Seq<Option<usize>>, at: usize) -> Seq<Option<usize>> {
    touchers.map_values(
        |t: Option<usize>|
            match t {
                Some(p) => Some(p),
                None => Some(at),
            },
    )
}

/// The set after one more line.
pub open spec fn set_step(s: SetView, line: Seq<char>) -> Result<SetView, LineError> {
    let f = text::split(line, '\t');
    if line.len() > 0 && line[0] == '#' {
        match header_after(s.head, line) {
            Ok(head) => Ok(SetView { head, ..s }),
            Err(e) => Err(e),
        }
    } else if line.len() == 0 {
        Ok(s)
    } else if f[0] == "tensor"@ {
        match row_of(RowKind::Tensor, f) {
            Ok(row) => Ok(
                SetView {
                    tensors: s.tensors.push(row),
                    touchers: settled(s.touchers, s.tensors.len() as usize),
                    ..s
                },
            ),
            Err(e) => Err(e),
        }
    } else if f[0] == "input"@ {
        match row_of(RowKind::Input, f) {
            Ok(row) => Ok(
                SetView { inputs: s.inputs.push(row), touchers: s.touchers.push(None), ..s },
            ),
            Err(e) => Err(e),
        }
    } else if f[0] == "int"@ {
        match int_row_of(f) {
            Ok(row) => Ok(SetView { ints: s.ints.push(row), ..s }),
            Err(e) => Err(e),
        }
    } else if f[0] == "skip"@ || f[0] == "skip-input"@ {
        if f.len() != 5 {
            Err(LineError::Width)
        } else if f[0] == "skip"@ {
            Ok(SetView { skipped_nodes: s.skipped_nodes + 1, ..s })
        } else {
            Ok(SetView { skipped_inputs: s.skipped_inputs + 1, ..s })
        }
    } else {
        Err(LineError::UnknownKind)
    }
}

/// What the lines say, or the first line that is wrong, counted from 0, and
/// what is wrong with it.
pub open spec fn set_of(lines: Seq<Seq<char>>) -> Result<SetView, (int, LineError)>
    decreases lines.len(),
{
    if lines.len() == 0 {
        Ok(empty_set())
    } else {
        match set_of(lines.drop_last()) {
            Err(e) => Err(e),
            Ok(s) => match set_step(s, lines.last()) {
                Ok(next) => Ok(next),
                Err(e) => Err((lines.len() - 1, e)),
            },
        }
    }
}

/// What a text says as a manifest: a wrong line, lines counted from 1, or the
/// lack of a tensor row is its error.
pub open spec fn parsed(s: Seq<char>) -> Result<SetView, ManifestError> {
    match set_of(text::lines(s)) {
        Err((i, e)) => Err(ManifestError::Line((i + 1) as usize, e)),
        Ok(set) => if set.tensors.len() == 0 {
            Err(ManifestError::NoTensorRows)
        } else {
            Ok(set)
        },
    }
}

/// The first wrong line ends the reading.
proof fn lemma_set_error_stays(lines: Seq<Seq<char>>, i: int)
    requires
        0 <= i <= lines.len(),
        set_of(lines.take(i)) is Err,
    ensures
        set_of(lines) == set_of(lines.take(i)),
    decreases lines.len() - i,
{
    if i < lines.len() {
        assert(lines.take(i + 1).drop_last() =~= lines.take(i));
        lemma_set_error_stays(lines, i + 1);
    } else {
        assert(lines.take(i) =~= lines);
    }
}

/// An input row's first toucher is the next tensor row of the file: what the
/// lines after `k` say leaves a toucher that is known, and gives an input that
/// has none yet the first tensor row they add, if they add one.
pub proof fn law_an_input_is_touched_by_the_next_tensor(lines: Seq<Seq<char>>, k: int)
    requires
        0 <= k <= lines.len() <= usize::MAX,
        set_of(lines) is Ok,
    ensures
        ({
            let was = set_of(lines.take(k));
            let s = set_of(lines)->Ok_0;
            &&& was is Ok
            &&& was->Ok_0.touchers.len() <= s.touchers.len()
            &&& was->Ok_0.tensors.len() <= s.tensors.len()
            &&& forall|i: int|
                0 <= i < was->Ok_0.touchers.len() ==> #[trigger] s.touchers[i] == (
                match was->Ok_0.touchers[i] {
                    Some(p) => Some(p),
                    None => if was->Ok_0.tensors.len() < s.tensors.len() {
                        Some(was->Ok_0.tensors.len() as usize)
                    } else {
                        None
                    },
                })
        }),
    decreases lines.len() - k,
{
    if k == lines.len() {
        assert(lines.take(k) =~= lines);
    } else {
        let rest = lines.drop_last();
        assert(lines.take(k) =~= rest.take(k));
        law_an_input_is_touched_by_the_next_tensor(rest, k);
        lemma_touchers_match(rest);
        let before = set_of(rest)->Ok_0;
        let s = set_of(lines)->Ok_0;
        assert(set_step(before, lines.last()) is Ok);
    }
}

/// Every input row has a toucher's place, and no more lines were read than
/// there are.
proof fn lemma_touchers_match(lines: Seq<Seq<char>>)
    requires
        set_of(lines) is Ok,
    ensures
        set_of(lines)->Ok_0.touchers.len() == set_of(lines)->Ok_0.inputs.len(),
        set_of(lines)->Ok_0.tensors.len() <= lines.len(),
    decreases lines.len(),
{
    if lines.len() > 0 {
        lemma_touchers_match(lines.drop_last());
    }
}

/// The touchers rise with the inputs, each a tensor row of the set, and an input
/// without one has none behind it with one.
pub proof fn law_touchers_rise(lines: Seq<Seq<char>>)
    requires
        lines.len() <= usize::MAX,
        set_of(lines) is Ok,
    ensures
        ({
            let s = set_of(lines)->Ok_0;
            &&& s.touchers.len() == s.inputs.len()
            &&& forall|i: int|
                0 <= i < s.touchers.len() ==> ((#[trigger] s.touchers[i]) matches Some(p) ==> p
                    < s.tensors.len())
            &&& forall|i: int, j: int|
                0 <= i < j < s.touchers.len() ==> ((#[trigger] s.touchers[j]) matches Some(q) ==> (
                #[trigger] s.touchers[i]) matches Some(p) && p <= q)
        }),
    decreases lines.len(),
{
    lemma_touchers_match(lines);
    if lines.len() > 0 {
        let rest = lines.drop_last();
        law_touchers_rise(rest);
        lemma_touchers_match(rest);
        let before = set_of(rest)->Ok_0;
        let s = set_of(lines)->Ok_0;
        assert(set_step(before, lines.last()) is Ok);
        if s.tensors.len() > before.tensors.len() {
            assert(s.touchers == settled(before.touchers, before.tensors.len() as usize));
            assert forall|i: int, j: int|
                0 <= i < j < s.touchers.len() && (#[trigger] s.touchers[j]) is Some implies (
            #[trigger] s.touchers[i]) is Some && s.touchers[i]->0 <= s.touchers[j]->0 by {
                let a = before.touchers[i];
                let b = before.touchers[j];
            }
        } else if s.touchers.len() > before.touchers.len() {
            assert(s.touchers == before.touchers.push(None));
        }
    }
}

// ------------------------------------------------------------ keys

impl Keyed for RefRow {
    open spec fn key(&self) -> RowKey {
        RowKey {
            name: self.name@,
            occurrence: self.occurrence,
            of: self.kind,
            layout: Layout::Flat,
        }
    }

    fn name_digest(&self) -> (r: u64) {
        index::digest_of(self.name.as_str())
    }

    fn has_key(&self, name: &str, occurrence: u32, of: RowKind, layout: Layout) -> (r: bool) {
        self.occurrence == occurrence && self.kind == of && layout == Layout::Flat
            && text::same_str(self.name.as_str(), name)
    }

    fn has_name(&self, name: &str) -> (r: bool) {
        text::same_str(self.name.as_str(), name)
    }

    fn same_key(&self, other: &Self) -> (r: bool) {
        self.occurrence == other.occurrence && self.kind == other.kind && text::same_str(
            self.name.as_str(),
            other.name.as_str(),
        )
    }
}

impl Keyed for IntRow {
    open spec fn key(&self) -> RowKey {
        RowKey {
            name: self.name@,
            occurrence: self.occurrence,
            of: self.of,
            layout: self.layout,
        }
    }

    fn name_digest(&self) -> (r: u64) {
        index::digest_of(self.name.as_str())
    }

    fn has_key(&self, name: &str, occurrence: u32, of: RowKind, layout: Layout) -> (r: bool) {
        self.occurrence == occurrence && self.of == of && self.layout == layout && text::same_str(
            self.name.as_str(),
            name,
        )
    }

    fn has_name(&self, name: &str) -> (r: bool) {
        text::same_str(self.name.as_str(), name)
    }

    fn same_key(&self, other: &Self) -> (r: bool) {
        self.occurrence == other.occurrence && self.of == other.of && self.layout == other.layout
            && text::same_str(self.name.as_str(), other.name.as_str())
    }
}

/// What a list of rows says.
pub open spec fn row_views(rows: Seq<RefRow>) -> Seq<RowView> {
    rows.map_values(|r: RefRow| r@)
}

/// What a list of `int` rows says.
pub open spec fn int_views(rows: Seq<IntRow>) -> Seq<IntView> {
    rows.map_values(|r: IntRow| r@)
}

// ------------------------------------------------------------ the manifest

/// A dump set's whole manifest: its header lines and every row the dumper
/// writes, by kind, with an index over the rows. A gate reads it once per set
/// and takes rows out of it.
#[derive(Debug, Clone)]
pub struct RefManifest {
    /// The header lines.
    pub header: RefHeader,
    /// `tensor` rows (graph nodes), in file order.
    pub tensors: Vec<RefRow>,
    /// `input` rows (graph leaves), in file order.
    pub inputs: Vec<RefRow>,
    /// `int` rows, one per integer twin file, in file order.
    pub ints: Vec<IntRow>,
    /// `skip` rows: nodes written to no file (quantized, unhandled type,
    /// unallocated).
    pub skipped_nodes: u64,
    /// `skip-input` rows: the same for graph inputs.
    pub skipped_inputs: u64,
    /// Where each row sits in its list.
    pub index: SetIndex,
}

/// The indexes of a set's rows, the rows of a repeated key counted, and per
/// input row the tensor row that first touches it.
#[derive(Debug, Clone)]
pub struct SetIndex {
    tensors: RowIndex,
    inputs: RowIndex,
    ints: RowIndex,
    duplicates: usize,
    touchers: Vec<Option<usize>>,
}

impl SetIndex {
    /// Per input row, its first toucher.
    pub closed spec fn first_touchers(&self) -> Seq<Option<usize>> {
        self.touchers@
    }

    /// These are the indexes of rows with these keys, each input has a toucher
    /// or none, and the repeated keys are counted.
    pub closed spec fn indexes(
        &self,
        tensors: Seq<RowKey>,
        inputs: Seq<RowKey>,
        ints: Seq<RowKey>,
    ) -> bool {
        &&& self.tensors.indexes(tensors)
        &&& self.inputs.indexes(inputs)
        &&& self.ints.indexes(ints)
        &&& self.touchers@.len() == inputs.len()
        &&& self.duplicates == count_where(tensors.len() as int, repeated(tensors)) + count_where(
            inputs.len() as int,
            repeated(inputs),
        )
    }
}

impl View for RefManifest {
    type V = SetView;

    open spec fn view(&self) -> SetView {
        SetView {
            head: self.header@,
            tensors: row_views(self.tensors@),
            inputs: row_views(self.inputs@),
            touchers: self.index.first_touchers(),
            ints: int_views(self.ints@),
            skipped_nodes: self.skipped_nodes as nat,
            skipped_inputs: self.skipped_inputs as nat,
        }
    }
}

/// The row a lookup asked for is not in the set.
#[derive(Clone, Copy, Debug, PartialEq, Eq, Structural)]
pub struct NoRow;

/// A prefix names no row, or more than one: the positions of those it names.
#[derive(Debug)]
pub struct NotOne(pub Vec<usize>);

/// Why a reader row's source column names no node.
#[derive(Clone, Copy, Debug, PartialEq, Eq, Structural)]
pub enum SourceError {
    /// The reader row has no such column.
    NoColumn,
    /// No node of that name comes before the reader.
    NotBefore,
}

/// Why a set names no step.
#[derive(Clone, Copy, Debug, PartialEq, Eq, Structural)]
pub enum StepError {
    /// The set has no `# tokens` line.
    NoTokens,
    /// `# decode_pos` differs from `# prefill`.
    NotAfterPrefill,
    /// `# decode_pos` is not the set's last token.
    NotLast,
}

/// The positions below `n` of the rows whose name opens with `prefix`.
pub open spec fn with_prefix(rows: Seq<RowView>, prefix: Seq<char>, n: int) -> Seq<int>
    decreases n,
{
    if n <= 0 {
        seq![]
    } else {
        let before = with_prefix(rows, prefix, n - 1);
        if text::opens_with(rows[n - 1].name, prefix) {
            before.push(n - 1)
        } else {
            before
        }
    }
}

/// Positions as mathematical integers.
pub open spec fn ints_of(v: Seq<usize>) -> Seq<int> {
    v.map_values(|i: usize| i as int)
}

/// The last position below `at` of a row named `name`.
pub open spec fn last_named(rows: Seq<RowView>, name: Seq<char>, at: int) -> Option<int>
    decreases at,
{
    if at <= 0 {
        None
    } else if rows[at - 1].name == name {
        Some(at - 1)
    } else {
        last_named(rows, name, at - 1)
    }
}

/// The positions below `n` of the inputs whose first toucher is tensor row
/// `at`.
pub open spec fn touched(touchers: Seq<Option<usize>>, at: usize, n: int) -> Seq<int>
    decreases n,
{
    if n <= 0 {
        seq![]
    } else {
        let before = touched(touchers, at, n - 1);
        if touchers[n - 1] == Some(at) {
            before.push(n - 1)
        } else {
            before
        }
    }
}

impl RefManifest {
    /// The rows of a kind.
    pub open spec fn kind_rows(&self, kind: RowKind) -> Seq<RefRow> {
        match kind {
            RowKind::Tensor => self.tensors@,
            RowKind::Input => self.inputs@,
        }
    }

    /// The indexes are those of the rows.
    pub open spec fn wf(&self) -> bool {
        self.index.indexes(keys(self.tensors@), keys(self.inputs@), keys(self.ints@))
    }

    /// Tensor and input rows whose key an earlier row of their kind carries.
    pub open spec fn repeats(&self) -> nat {
        count_where(self.tensors@.len() as int, repeated(keys(self.tensors@))) + count_where(
            self.inputs@.len() as int,
            repeated(keys(self.inputs@)),
        )
    }

    /// Reads a manifest's text. The rows are indexed here, once, with each
    /// input row's first toucher.
    pub fn parse(s: &str) -> (r: Result<RefManifest, ManifestError>)
        ensures
            match r {
                Ok(man) => parsed(s@) == Ok::<SetView, ManifestError>(man@) && man.wf(),
                Err(e) => parsed(s@) == Err::<SetView, ManifestError>(e),
            },
    {
        let all: Vec<Vec<char>> = text::lines_of(text::chars_of(s).as_slice());
        let ghost lines = text::lines(s@);
        let mut man: RefManifest = RefManifest {
            header: RefHeader::new(),
            tensors: Vec::new(),
            inputs: Vec::new(),
            ints: Vec::new(),
            skipped_nodes: 0,
            skipped_inputs: 0,
            index: SetIndex {
                tensors: RowIndex::empty(),
                inputs: RowIndex::empty(),
                ints: RowIndex::empty(),
                duplicates: 0,
                touchers: Vec::new(),
            },
        };
        let mut settled_to: usize = 0;
        let mut i: usize = 0;
        assert(lines.take(0) =~= seq![]);
        assert(row_views(man.tensors@) =~= seq![]);
        assert(row_views(man.inputs@) =~= seq![]);
        assert(int_views(man.ints@) =~= seq![]);
        assert(man.index.touchers@ =~= seq![]);
        while i < all.len()
            invariant
                i <= all@.len(),
                text::pieces(all@) == lines,
                lines == text::lines(s@),
                set_of(lines.take(i as int)) == Ok::<SetView, (int, LineError)>(man@),
                man.skipped_nodes <= i,
                man.skipped_inputs <= i,
                man.tensors@.len() <= i,
                man.inputs@.len() <= i,
                man.index.touchers@.len() == man.inputs@.len(),
                settled_to <= man.index.touchers@.len(),
                forall|k: int|
                    0 <= k < man.index.touchers@.len() ==> (#[trigger] man.index.touchers@[k] is None <==> k
                        >= settled_to),
            decreases all@.len() - i,
        {
            proof {
                assert(lines.take(i + 1).drop_last() =~= lines.take(i as int));
                assert(lines.take(i + 1).last() == all@[i as int]@);
            }
            match man.take_line(all[i].as_slice(), &mut settled_to) {
                Ok(()) => {},
                Err(e) => {
                    proof {
                        lemma_set_error_stays(lines, i + 1);
                    }
                    return Err(ManifestError::Line(i + 1, e));
                },
            }
            i += 1;
        }
        assert(lines.take(lines.len() as int) =~= lines);
        if man.tensors.len() == 0 {
            return Err(ManifestError::NoTensorRows);
        }
        let (tensors, td): (RowIndex, usize) = RowIndex::over(man.tensors.as_slice());
        let (inputs, id): (RowIndex, usize) = RowIndex::over(man.inputs.as_slice());
        let (ints, _): (RowIndex, usize) = RowIndex::over(man.ints.as_slice());
        proof {
            crate::count::lemma_count_bound(
                man.tensors@.len() as int,
                repeated(keys(man.tensors@)),
            );
            crate::count::lemma_count_bound(man.inputs@.len() as int, repeated(keys(man.inputs@)));
            lemma_rows_fit(lines);
        }
        man.index.tensors = tensors;
        man.index.inputs = inputs;
        man.index.ints = ints;
        man.index.duplicates = td + id;
        Ok(man)
    }

    /// One line. `settled_to` is how many of the inputs a tensor row has
    /// followed.
    fn take_line(&mut self, line: &[char], settled_to: &mut usize) -> (r: Result<(), LineError>)
        requires
            old(self).skipped_nodes < u64::MAX,
            old(self).skipped_inputs < u64::MAX,
            old(self).index.touchers@.len() == old(self).inputs@.len(),
            *old(settled_to) <= old(self).index.touchers@.len(),
            forall|k: int|
                0 <= k < old(self).index.touchers@.len() ==> (#[trigger] old(self).index.touchers@[k] is None
                    <==> k >= *old(settled_to)),
        ensures
            match r {
                Ok(()) => {
                    &&& set_step(old(self)@, line@) == Ok::<SetView, LineError>(final(self)@)
                    &&& final(self).skipped_nodes <= old(self).skipped_nodes + 1
                    &&& final(self).skipped_inputs <= old(self).skipped_inputs + 1
                    &&& final(self).tensors@.len() <= old(self).tensors@.len() + 1
                    &&& final(self).inputs@.len() <= old(self).inputs@.len() + 1
                    &&& final(self).index.touchers@.len() == final(self).inputs@.len()
                    &&& *final(settled_to) <= final(self).index.touchers@.len()
                    &&& forall|k: int|
                        0 <= k < final(self).index.touchers@.len() ==>
                            (#[trigger] final(self).index.touchers@[k] is None <==> k
                            >= *final(settled_to))
                },
                Err(e) => set_step(old(self)@, line@) == Err::<SetView, LineError>(e),
            },
    {
        if line.len() == 0 {
            return Ok(());
        }
        if line[0] == '#' {
            return self.header.header_line(line);
        }
        let f: Vec<Vec<char>> = text::split_at_each(line, '\t');
        assert(text::pieces(f@)[0] == f@[0]@);
        if text::is(f[0].as_slice(), "tensor") {
            let row: RefRow = parse_ref_row(RowKind::Tensor, &f)?;
            let n: usize = self.tensors.len();
            let ghost told = self.index.touchers@;
            let mut k: usize = *settled_to;
            while k < self.index.touchers.len()
                invariant
                    *settled_to <= k <= self.index.touchers@.len(),
                    self.index.touchers@.len() == told.len(),
                    self.header == old(self).header,
                    self.tensors == old(self).tensors,
                    self.inputs == old(self).inputs,
                    self.ints == old(self).ints,
                    self.skipped_nodes == old(self).skipped_nodes,
                    self.skipped_inputs == old(self).skipped_inputs,
                    forall|m: int|
                        0 <= m < told.len() ==> (#[trigger] told[m] is None <==> m >= *settled_to),
                    forall|m: int|
                        0 <= m < told.len() ==> #[trigger] self.index.touchers@[m] == if *settled_to <= m
                            && m < k {
                            Some(n)
                        } else {
                            told[m]
                        },
                decreases self.index.touchers@.len() - k,
            {
                self.index.touchers.set(k, Some(n));
                k += 1;
            }
            *settled_to = self.index.touchers.len();
            let ghost held = row_views(self.tensors@);
            let ghost added = row@;
            self.tensors.push(row);
            proof {
                assert(row_views(self.tensors@) =~= held.push(added));
                assert(self.index.touchers@ =~= settled(told, n));
            }
            Ok(())
        } else if text::is(f[0].as_slice(), "input") {
            let row: RefRow = parse_ref_row(RowKind::Input, &f)?;
            let ghost held = row_views(self.inputs@);
            let ghost added = row@;
            self.inputs.push(row);
            self.index.touchers.push(None);
            assert(row_views(self.inputs@) =~= held.push(added));
            Ok(())
        } else if text::is(f[0].as_slice(), "int") {
            let row: IntRow = parse_int_row(&f)?;
            let ghost held = int_views(self.ints@);
            let ghost added = row@;
            self.ints.push(row);
            assert(int_views(self.ints@) =~= held.push(added));
            Ok(())
        } else if text::is(f[0].as_slice(), "skip") {
            if f.len() != 5 {
                return Err(LineError::Width);
            }
            self.skipped_nodes = self.skipped_nodes + 1;
            Ok(())
        } else if text::is(f[0].as_slice(), "skip-input") {
            if f.len() != 5 {
                return Err(LineError::Width);
            }
            self.skipped_inputs = self.skipped_inputs + 1;
            Ok(())
        } else {
            Err(LineError::UnknownKind)
        }
    }
}

/// Rows come from lines of their own: together they are no more than the
/// lines.
proof fn lemma_rows_fit(lines: Seq<Seq<char>>)
    ensures
        set_of(lines) matches Ok(s) ==> s.tensors.len() + s.inputs.len() <= lines.len(),
    decreases lines.len(),
{
    if lines.len() > 0 {
        lemma_rows_fit(lines.drop_last());
    }
}

// ------------------------------------------------------------ lookups

impl RefManifest {
    /// The rows of a kind.
    fn rows_of(&self, kind: RowKind) -> (r: &Vec<RefRow>)
        ensures
            r@ == self.kind_rows(kind),
    {
        match kind {
            RowKind::Tensor => &self.tensors,
            RowKind::Input => &self.inputs,
        }
    }

    /// Where the row of kind `kind` keyed `name`/`occurrence` sits among the
    /// rows of its kind (`tensors` or `inputs`, file order), through the index
    /// (the row a scan of the file finds first), or `None` if the set has
    /// none.
    pub fn position(&self, kind: RowKind, name: &str, occurrence: u32) -> (r: Option<usize>)
        requires
            self.wf(),
        ensures
            match r {
                Some(i) => i < self.kind_rows(kind).len() && self.finds(kind, name@, occurrence)
                    == Some(i as int),
                None => self.finds(kind, name@, occurrence) is None,
            },
    {
        match kind {
            RowKind::Tensor => self.index.tensors.position(
                self.tensors.as_slice(),
                name,
                occurrence,
                kind,
                Layout::Flat,
            ),
            RowKind::Input => self.index.inputs.position(
                self.inputs.as_slice(),
                name,
                occurrence,
                kind,
                Layout::Flat,
            ),
        }
    }

    /// Where a scan of the rows of `kind` finds `name`/`occurrence` first.
    pub open spec fn finds(&self, kind: RowKind, name: Seq<char>, occurrence: u32) -> Option<int> {
        first_key(
            keys(self.kind_rows(kind)),
            RowKey { name, occurrence, of: kind, layout: Layout::Flat },
            0,
        )
    }

    /// The row of kind `kind` keyed `name`/`occurrence`, through the index
    /// (the row a scan of the file finds first), or `None` if the set has
    /// none.
    pub fn find(&self, kind: RowKind, name: &str, occurrence: u32) -> (r: Option<&RefRow>)
        requires
            self.wf(),
        ensures
            match r {
                Some(row) => {
                    &&& self.finds(kind, name@, occurrence) is Some
                    &&& *row == self.kind_rows(kind)[self.finds(kind, name@, occurrence)->0]
                },
                None => self.finds(kind, name@, occurrence) is None,
            },
    {
        match self.position(kind, name, occurrence) {
            Some(at) => Some(&self.rows_of(kind)[at]),
            None => None,
        }
    }

    /// The first row of kind `kind` named `name`, whatever its occurrence: the
    /// row a scan of the file finds first. The dumper counts a name's skipped
    /// nodes in its occurrences, so that row need not be occurrence 0.
    pub fn first_named(&self, kind: RowKind, name: &str) -> (r: Option<&RefRow>)
        requires
            self.wf(),
        ensures
            match r {
                Some(row) => {
                    &&& first_name(keys(self.kind_rows(kind)), name@, 0) is Some
                    &&& *row == self.kind_rows(kind)[first_name(
                        keys(self.kind_rows(kind)),
                        name@,
                        0,
                    )->0]
                },
                None => first_name(keys(self.kind_rows(kind)), name@, 0) is None,
            },
    {
        let at: Option<usize> = match kind {
            RowKind::Tensor => self.index.tensors.first_named(self.tensors.as_slice(), name),
            RowKind::Input => self.index.inputs.first_named(self.inputs.as_slice(), name),
        };
        match at {
            Some(i) => Some(&self.rows_of(kind)[i]),
            None => None,
        }
    }

    /// The one row of kind `kind` whose name opens with `prefix`, whatever its
    /// occurrence: the row of a tensor the graph names after the last of
    /// several callers (`dsv4_raw_mask_padded-<layer>`), which a reader cannot
    /// name in advance. No such row, or more than one, is an error naming the
    /// rows found.
    pub fn only_with_prefix(&self, kind: RowKind, prefix: &str) -> (r: Result<&RefRow, NotOne>)
        ensures
            ({
                let found = with_prefix(
                    row_views(self.kind_rows(kind)),
                    prefix@,
                    self.kind_rows(kind).len() as int,
                );
                match r {
                    Ok(row) => found.len() == 1 && *row == self.kind_rows(kind)[found[0]],
                    Err(e) => found.len() != 1 && ints_of(e.0@) == found,
                }
            }),
    {
        let rows: &Vec<RefRow> = self.rows_of(kind);
        let want: Vec<char> = text::chars_of(prefix);
        let mut found: Vec<usize> = Vec::new();
        let ghost views = row_views(self.kind_rows(kind));
        let mut i: usize = 0;
        assert(ints_of(found@) =~= seq![]);
        while i < rows.len()
            invariant
                i <= rows@.len(),
                rows@ == self.kind_rows(kind),
                views == row_views(rows@),
                want@ == prefix@,
                ints_of(found@) == with_prefix(views, prefix@, i as int),
                forall|k: int| 0 <= k < found@.len() ==> #[trigger] found@[k] < i,
            decreases rows@.len() - i,
        {
            let name: Vec<char> = text::chars_of(rows[i].name.as_str());
            assert(views[i as int].name == name@);
            if text::starts(name.as_slice(), want.as_slice()) {
                let ghost held = ints_of(found@);
                found.push(i);
                assert(ints_of(found@) =~= held.push(i as int));
            }
            i += 1;
        }
        if found.len() == 1 {
            let at: usize = found[0];
            assert(ints_of(found@)[0] == at);
            Ok(&rows[at])
        } else {
            Err(NotOne(found))
        }
    }

    /// The `tensor` row `name`/`occurrence` ([`find`](Self::find)); a set
    /// without it is an error.
    pub fn tensor(&self, name: &str, occurrence: u32) -> (r: Result<&RefRow, NoRow>)
        requires
            self.wf(),
        ensures
            match r {
                Ok(row) => {
                    &&& self.finds(RowKind::Tensor, name@, occurrence) is Some
                    &&& *row == self.tensors@[self.finds(RowKind::Tensor, name@, occurrence)->0]
                },
                Err(_) => self.finds(RowKind::Tensor, name@, occurrence) is None,
            },
    {
        match self.find(RowKind::Tensor, name, occurrence) {
            Some(row) => Ok(row),
            None => Err(NoRow),
        }
    }

    /// The `tensor` row `name`/`occurrence` with its position in `tensors`,
    /// where a walk back through the rows before it starts
    /// ([`last_before`](Self::last_before)); a set without it is an error.
    pub fn tensor_at(&self, name: &str, occurrence: u32) -> (r: Result<(usize, &RefRow), NoRow>)
        requires
            self.wf(),
        ensures
            match r {
                Ok(found) => {
                    &&& self.finds(RowKind::Tensor, name@, occurrence) == Some(found.0 as int)
                    &&& found.0 < self.tensors@.len()
                    &&& *found.1 == self.tensors@[found.0 as int]
                },
                Err(_) => self.finds(RowKind::Tensor, name@, occurrence) is None,
            },
    {
        match self.position(RowKind::Tensor, name, occurrence) {
            Some(at) => Ok((at, &self.tensors[at])),
            None => Err(NoRow),
        }
    }

    /// The `input` row `name`/`occurrence` ([`find`](Self::find)); a set
    /// without it is an error.
    pub fn input(&self, name: &str, occurrence: u32) -> (r: Result<&RefRow, NoRow>)
        requires
            self.wf(),
        ensures
            match r {
                Ok(row) => {
                    &&& self.finds(RowKind::Input, name@, occurrence) is Some
                    &&& *row == self.inputs@[self.finds(RowKind::Input, name@, occurrence)->0]
                },
                Err(_) => self.finds(RowKind::Input, name@, occurrence) is None,
            },
    {
        match self.find(RowKind::Input, name, occurrence) {
            Some(row) => Ok(row),
            None => Err(NoRow),
        }
    }

    /// The node a reader at `tensors[at]` reads as `name`, one of its source
    /// columns: the last tensor row of that name before it (manifest order is
    /// execution order), with its position. An empty column is an error.
    pub fn last_before(&self, at: usize, name: Option<&str>) -> (r: Result<
        (usize, &RefRow),
        SourceError,
    >)
        requires
            name is Some ==> at <= self.tensors@.len(),
        ensures
            match r {
                Ok(found) => {
                    &&& name is Some
                    &&& last_named(row_views(self.tensors@), name->0@, at as int) == Some(
                        found.0 as int,
                    )
                    &&& found.0 < at
                    &&& *found.1 == self.tensors@[found.0 as int]
                },
                Err(SourceError::NoColumn) => name is None,
                Err(SourceError::NotBefore) => name is Some && last_named(
                    row_views(self.tensors@),
                    name->0@,
                    at as int,
                ) is None,
            },
    {
        let wanted: &str = match name {
            Some(n) => n,
            None => {
                return Err(SourceError::NoColumn);
            },
        };
        let ghost views = row_views(self.tensors@);
        let mut i: usize = at;
        while i > 0
            invariant
                i <= at <= self.tensors@.len(),
                name == Some(wanted),
                views == row_views(self.tensors@),
                last_named(views, wanted@, at as int) == last_named(views, wanted@, i as int),
            decreases i,
        {
            assert(views[i - 1].name == self.tensors@[i - 1].name@);
            if self.tensors[i - 1].has_name(wanted) {
                return Ok((i - 1, &self.tensors[i - 1]));
            }
            i -= 1;
        }
        Err(SourceError::NotBefore)
    }

    /// The positions in `inputs` of the rows tensor row `at` touches first, in
    /// file order. The dumper writes a graph input right before the node that
    /// first touches it (reads it, or writes into it as a `SET_ROWS`
    /// destination, which no source column names), so an input's first toucher
    /// is the tensor row that follows it in the file.
    pub fn first_touched_by(&self, at: usize) -> (r: Vec<usize>)
        requires
            self.wf(),
        ensures
            ints_of(r@) == touched(self@.touchers, at, self.inputs@.len() as int),
            forall|k: int| 0 <= k < r@.len() ==> #[trigger] r@[k] < self.inputs@.len(),
    {
        let mut out: Vec<usize> = Vec::new();
        let mut i: usize = 0;
        assert(ints_of(out@) =~= seq![]);
        while i < self.index.touchers.len()
            invariant
                i <= self.index.touchers@.len() == self.inputs@.len(),
                self.index.touchers@ == self@.touchers,
                ints_of(out@) == touched(self@.touchers, at, i as int),
                forall|k: int| 0 <= k < out@.len() ==> #[trigger] out@[k] < i,
            decreases self.index.touchers@.len() - i,
        {
            let hit: bool = match self.index.touchers[i] {
                Some(t) => t == at,
                None => false,
            };
            if hit {
                let ghost held = ints_of(out@);
                out.push(i);
                assert(ints_of(out@) =~= held.push(i as int));
            }
            i += 1;
        }
        out
    }

    /// Tensor and input rows whose `(kind, name, occurrence)` an earlier row
    /// already carries; a lookup never lands on one of them.
    pub fn duplicate_keys(&self) -> (r: usize)
        requires
            self.wf(),
        ensures
            r == self.repeats(),
    {
        self.index.duplicates
    }

    /// Where the `int` row twinning `(name, occurrence)` of kind `of` in
    /// `layout` sits among the int rows.
    pub fn int_position(
        &self,
        name: &str,
        occurrence: u32,
        of: RowKind,
        layout: Layout,
    ) -> (r: Option<usize>)
        requires
            self.wf(),
        ensures
            ({
                let at = first_key(
                    keys(self.ints@),
                    RowKey { name: name@, occurrence, of, layout },
                    0,
                );
                match r {
                    Some(i) => i < self.ints@.len() && at == Some(i as int),
                    None => at is None,
                }
            }),
    {
        self.index.ints.position(self.ints.as_slice(), name, occurrence, of, layout)
    }

    /// The `int` row twinning `(name, occurrence)` of kind `of` in `layout`,
    /// through the index.
    pub fn find_int_row(
        &self,
        name: &str,
        occurrence: u32,
        of: RowKind,
        layout: Layout,
    ) -> (r: Result<&IntRow, NoRow>)
        requires
            self.wf(),
        ensures
            ({
                let at = first_key(
                    keys(self.ints@),
                    RowKey { name: name@, occurrence, of, layout },
                    0,
                );
                match r {
                    Ok(row) => at is Some && *row == self.ints@[at->0],
                    Err(_) => at is None,
                }
            }),
    {
        match self.int_position(name, occurrence, of, layout) {
            Some(i) => Ok(&self.ints[i]),
            None => Err(NoRow),
        }
    }

    /// The step the set holds, as its first position, its tokens and the
    /// tokens before it: in a batch set every token of `# tokens` from
    /// position 0; in a decode-step set the last token, at `# decode_pos`,
    /// after the rest. A decode step runs right after its prefill, so
    /// `# prefill`, where the set has it, is the step's position.
    pub fn step(&self) -> (r: Result<(u32, &[u32], &[u32]), StepError>)
        ensures
            ({
                let h = self.header;
                match r {
                    Ok(step) => {
                        &&& h.tokens is Some
                        &&& step.2@ + step.1@ == h.tokens->0@
                        &&& step.0 == step.2@.len()
                        &&& h.decode_pos is Some && h.prefill is Some ==> h.decode_pos == h.prefill
                        &&& match h.decode_pos {
                            None => step.0 == 0 && step.1@ == h.tokens->0@ && step.2@.len() == 0,
                            Some(p) => {
                                &&& p + 1 == h.tokens->0@.len()
                                &&& step.0 == p
                                &&& step.1@ == h.tokens->0@.skip(p as int)
                                &&& step.2@ == h.tokens->0@.take(p as int)
                            },
                        }
                    },
                    Err(StepError::NoTokens) => h.tokens is None,
                    Err(StepError::NotAfterPrefill) => {
                        &&& h.tokens is Some
                        &&& h.decode_pos is Some && h.prefill is Some && h.decode_pos != h.prefill
                    },
                    Err(StepError::NotLast) => {
                        &&& h.tokens is Some
                        &&& h.decode_pos is Some && h.prefill is Some ==> h.decode_pos == h.prefill
                        &&& h.decode_pos matches Some(p) && p + 1 != h.tokens->0@.len()
                    },
                }
            }),
    {
        let tokens: &[u32] = match &self.header.tokens {
            Some(v) => v.as_slice(),
            None => {
                return Err(StepError::NoTokens);
            },
        };
        if let (Some(p), Some(n)) = (self.header.decode_pos, self.header.prefill) {
            if p != n {
                return Err(StepError::NotAfterPrefill);
            }
        }
        let none: &[u32] = slice_subrange(tokens, 0, 0);
        match self.header.decode_pos {
            None => {
                assert(none@ + tokens@ =~= tokens@);
                Ok((0, tokens, none))
            },
            Some(p) => if p as usize as u64 == p as u64 && tokens.len() >= 1 && p as usize
                == tokens.len() - 1 {
                let at: usize = p as usize;
                let step: &[u32] = slice_subrange(tokens, at, tokens.len());
                let before: &[u32] = slice_subrange(tokens, 0, at);
                assert(step@ =~= tokens@.skip(p as int));
                assert(before@ =~= tokens@.take(p as int));
                assert(before@ + step@ =~= tokens@);
                Ok((p, step, before))
            } else {
                Err(StepError::NotLast)
            },
        }
    }
}

/// Where a scan of a list from `at` on finds a name and occurrence first.
pub open spec fn first_row(
    rows: Seq<RefRow>,
    name: Seq<char>,
    occurrence: u32,
    at: int,
) -> Option<int>
    decreases rows.len() - at,
{
    if at < 0 || at >= rows.len() {
        None
    } else if rows[at].name@ == name && rows[at].occurrence == occurrence {
        Some(at)
    } else {
        first_row(rows, name, occurrence, at + 1)
    }
}

/// The first row of a list with this name and occurrence, found by a scan.
pub fn find_ref_row<'a>(rows: &'a [RefRow], name: &str, occurrence: u32) -> (r: Result<
    &'a RefRow,
    NoRow,
>)
    ensures
        match r {
            Ok(row) => first_row(rows@, name@, occurrence, 0) matches Some(i) && 0 <= i
                < rows@.len() && *row == rows@[i],
            Err(_) => first_row(rows@, name@, occurrence, 0) is None,
        },
{
    let mut i: usize = 0;
    while i < rows.len()
        invariant
            i <= rows@.len(),
            first_row(rows@, name@, occurrence, 0) == first_row(
                rows@,
                name@,
                occurrence,
                i as int,
            ),
        decreases rows@.len() - i,
    {
        if rows[i].occurrence == occurrence && rows[i].has_name(name) {
            return Ok(&rows[i]);
        }
        i += 1;
    }
    Err(NoRow)
}

// ------------------------------------------------------------ what a line adds

/// A line goes to the list its first field names, and to no other: a tensor, an
/// input or an integer row behind the rows before it, a skipped node or input to
/// its count; an empty line adds nothing, and any other first field is refused.
pub proof fn law_a_line_goes_to_its_list(s: SetView, kind: Seq<char>, rest: Seq<char>, n: SetView)
    requires
        !kind.contains('\t'),
        kind.len() > 0,
        kind[0] != '#',
    ensures
        ({
            let line = kind + seq!['\t'] + rest;
            &&& kind == "tensor"@ && set_step(s, line) == Ok::<SetView, LineError>(n) ==> {
                &&& n.tensors.len() == s.tensors.len() + 1 && n.tensors.drop_last() == s.tensors
                &&& n.tensors.last().kind == RowKind::Tensor
                &&& n.inputs == s.inputs && n.ints == s.ints && n.head == s.head
                &&& n.skipped_nodes == s.skipped_nodes && n.skipped_inputs == s.skipped_inputs
            }
            &&& kind == "input"@ && set_step(s, line) == Ok::<SetView, LineError>(n) ==> {
                &&& n.inputs.len() == s.inputs.len() + 1 && n.inputs.drop_last() == s.inputs
                &&& n.inputs.last().kind == RowKind::Input
                &&& n.tensors == s.tensors && n.ints == s.ints && n.head == s.head
                &&& n.skipped_nodes == s.skipped_nodes && n.skipped_inputs == s.skipped_inputs
            }
            &&& kind == "int"@ && set_step(s, line) == Ok::<SetView, LineError>(n) ==> {
                &&& n.ints.len() == s.ints.len() + 1 && n.ints.drop_last() == s.ints
                &&& n == (SetView { ints: n.ints, ..s })
            }
            &&& kind == "skip"@ && set_step(s, line) == Ok::<SetView, LineError>(n) ==> n == (
            SetView { skipped_nodes: s.skipped_nodes + 1, ..s })
            &&& kind == "skip-input"@ && set_step(s, line) == Ok::<SetView, LineError>(n) ==> n == (
            SetView { skipped_inputs: s.skipped_inputs + 1, ..s })
            &&& kind != "tensor"@ && kind != "input"@ && kind != "int"@ && kind != "skip"@ && kind
                != "skip-input"@ ==> set_step(s, line) == Err::<SetView, LineError>(
                LineError::UnknownKind,
            )
        }),
        set_step(s, Seq::empty()) == Ok::<SetView, LineError>(s),
{
    reveal_strlit("tensor");
    reveal_strlit("input");
    reveal_strlit("int");
    reveal_strlit("skip");
    reveal_strlit("skip-input");
    let line = kind + seq!['\t'] + rest;
    text::law_a_separator_cuts(kind, '\t', rest);
    let f = text::split(line, '\t');
    assert(f[0] == kind);
    assert(line[0] == kind[0]);
    match set_step(s, line) {
        Ok(m) => {
            if kind == "tensor"@ {
                assert(m.tensors.drop_last() =~= s.tensors);
            } else if kind == "input"@ {
                assert(m.inputs.drop_last() =~= s.inputs);
            } else if kind == "int"@ {
                assert(m.ints.drop_last() =~= s.ints);
            }
        },
        Err(_) => {},
    }
}

/// The rows with a prefix are all of those whose name opens with it, in order, and
/// no other.
pub proof fn law_rows_with_a_prefix(rows: Seq<RowView>, prefix: Seq<char>, n: int, i: int)
    requires
        0 <= i < n <= rows.len(),
    ensures
        with_prefix(rows, prefix, n).contains(i) == (prefix.len() <= rows[i].name.len()
            && rows[i].name.take(prefix.len() as int) == prefix),
        forall|a: int, b: int|
            0 <= a < b < with_prefix(rows, prefix, n).len() ==> #[trigger] with_prefix(
                rows,
                prefix,
                n,
            )[a] < #[trigger] with_prefix(rows, prefix, n)[b],
{
    lemma_with_prefix(rows, prefix, n);
    let w = with_prefix(rows, prefix, n);
    if text::opens_with(rows[i].name, prefix) {
        lemma_prefix_held(rows, prefix, n, i);
    } else if w.contains(i) {
        let k = choose|k: int| 0 <= k < w.len() && w[k] == i;
        assert(text::opens_with(rows[w[k]].name, prefix));
    }
}

proof fn lemma_with_prefix(rows: Seq<RowView>, prefix: Seq<char>, n: int)
    requires
        0 <= n <= rows.len(),
    ensures
        forall|a: int|
            0 <= a < with_prefix(rows, prefix, n).len() ==> {
                let i = #[trigger] with_prefix(rows, prefix, n)[a];
                0 <= i < n && text::opens_with(rows[i].name, prefix)
            },
        forall|a: int, b: int|
            0 <= a < b < with_prefix(rows, prefix, n).len() ==> #[trigger] with_prefix(
                rows,
                prefix,
                n,
            )[a] < #[trigger] with_prefix(rows, prefix, n)[b],
    decreases n,
{
    if n > 0 {
        lemma_with_prefix(rows, prefix, n - 1);
    }
}

proof fn lemma_prefix_held(rows: Seq<RowView>, prefix: Seq<char>, n: int, i: int)
    requires
        0 <= i < n <= rows.len(),
        text::opens_with(rows[i].name, prefix),
    ensures
        with_prefix(rows, prefix, n).contains(i),
    decreases n,
{
    let w = with_prefix(rows, prefix, n);
    if i == n - 1 {
        assert(w[w.len() - 1] == i);
    } else {
        lemma_prefix_held(rows, prefix, n - 1, i);
        let b = with_prefix(rows, prefix, n - 1);
        let k = choose|k: int| 0 <= k < b.len() && b[k] == i;
        assert(w[k] == i);
    }
}

/// The source of a name before a place is the latest row of that name there.
pub proof fn law_the_last_before_is_the_latest(rows: Seq<RowView>, name: Seq<char>, at: int, i: int)
    requires
        0 <= i < at <= rows.len(),
    ensures
        match last_named(rows, name, at) {
            Some(j) => {
                &&& 0 <= j < at && rows[j].name == name
                &&& j < i ==> rows[i].name != name
            },
            None => rows[i].name != name,
        },
    decreases at,
{
    if rows[at - 1].name != name && i < at - 1 {
        law_the_last_before_is_the_latest(rows, name, at - 1, i);
    } else if rows[at - 1].name != name && at > 1 {
        law_the_last_before_is_the_latest(rows, name, at - 1, 0);
    }
}

/// A row is found by its name and its occurrence, the first that has both.
pub proof fn law_a_row_is_found_by_name_and_occurrence(
    rows: Seq<RefRow>,
    name: Seq<char>,
    occurrence: u32,
    at: int,
    i: int,
)
    requires
        0 <= at <= i < rows.len(),
    ensures
        match first_row(rows, name, occurrence, at) {
            Some(j) => {
                &&& at <= j < rows.len() && rows[j].name@ == name && rows[j].occurrence
                    == occurrence
                &&& i < j ==> rows[i].name@ != name || rows[i].occurrence != occurrence
            },
            None => rows[i].name@ != name || rows[i].occurrence != occurrence,
        },
    decreases rows.len() - at,
{
    reveal_with_fuel(first_row, 2);
    if !(rows[at].name@ == name && rows[at].occurrence == occurrence) && at + 1 < rows.len() {
        law_a_row_is_found_by_name_and_occurrence(
            rows,
            name,
            occurrence,
            at + 1,
            if i > at {
                i
            } else {
                at + 1
            },
        );
    }
}

/// The inputs that a tensor touches first are all of those whose first toucher it
/// is, in order.
pub proof fn law_first_touched_inputs(touchers: Seq<Option<usize>>, at: usize, n: int, i: int)
    requires
        0 <= i < n <= touchers.len(),
    ensures
        touched(touchers, at, n).contains(i) == (touchers[i] == Some(at)),
        touched(touchers, at, 0).len() == 0,
    decreases n,
{
    let w = touched(touchers, at, n);
    let b = touched(touchers, at, n - 1);
    lemma_touched_below(touchers, at, n - 1);
    if i < n - 1 {
        law_first_touched_inputs(touchers, at, n - 1, i);
        if b.contains(i) {
            let k = choose|k: int| 0 <= k < b.len() && b[k] == i;
            assert(w[k] == i);
        }
        if w.contains(i) {
            let k = choose|k: int| 0 <= k < w.len() && w[k] == i;
            assert(k < b.len() && b[k] == i);
        }
    } else {
        if touchers[i] == Some(at) {
            assert(w[w.len() - 1] == i);
        } else if w.contains(i) {
            let k = choose|k: int| 0 <= k < w.len() && w[k] == i;
            assert(b[k] < n - 1);
        }
    }
}

proof fn lemma_touched_below(touchers: Seq<Option<usize>>, at: usize, n: int)
    requires
        0 <= n <= touchers.len(),
    ensures
        forall|k: int|
            0 <= k < touched(touchers, at, n).len() ==> 0 <= #[trigger] touched(touchers, at, n)[k]
                < n,
    decreases n,
{
    if n > 0 {
        lemma_touched_below(touchers, at, n - 1);
        let (w, b) = (touched(touchers, at, n), touched(touchers, at, n - 1));
        assert forall|k: int| 0 <= k < w.len() implies 0 <= #[trigger] w[k] < n by {
            if k < b.len() {
                assert(w[k] == b[k]);
            }
        }
    }
}

/// A key is repeated exactly where an earlier row has it, so the first of equals is
/// the one a lookup gives.
pub proof fn law_a_repeated_key_has_an_earlier_row(k: Seq<RowKey>, i: int)
    requires
        0 <= i < k.len(),
    ensures
        repeated(k)(i) == exists|j: int| 0 <= j < i && #[trigger] k[j] == k[i],
{
    crate::index::lemma_first_key(k, k[i], 0);
    assert(k[i] == k[i]);
}

/// A row is found in its own kind's list: it has the name, the occurrence and the
/// kind that were asked for, and none before it has.
pub proof fn law_a_row_is_found_among_its_kind(
    man: RefManifest,
    name: Seq<char>,
    occurrence: u32,
    i: int,
)
    ensures
        man.finds(RowKind::Tensor, name, occurrence) matches Some(j) ==> {
            &&& 0 <= j < man.tensors@.len()
            &&& man.tensors@[j].name@ == name && man.tensors@[j].occurrence == occurrence
            &&& man.tensors@[j].kind == RowKind::Tensor
        },
        man.finds(RowKind::Tensor, name, occurrence) is None && 0 <= i < man.tensors@.len() && man.tensors@[i].kind
            == RowKind::Tensor ==> man.tensors@[i].name@ != name || man.tensors@[i].occurrence
            != occurrence,
        man.finds(RowKind::Input, name, occurrence) matches Some(j) ==> {
            &&& 0 <= j < man.inputs@.len()
            &&& man.inputs@[j].name@ == name && man.inputs@[j].occurrence == occurrence
        },
        man.finds(RowKind::Input, name, occurrence) is None && 0 <= i < man.inputs@.len() && man.inputs@[i].kind
            == RowKind::Input ==> man.inputs@[i].name@ != name || man.inputs@[i].occurrence
            != occurrence,
{
    let t = RowKey { name, occurrence, of: RowKind::Tensor, layout: Layout::Flat };
    let u = RowKey { name, occurrence, of: RowKind::Input, layout: Layout::Flat };
    index::lemma_first_key(keys(man.tensors@), t, 0);
    index::lemma_first_key(keys(man.inputs@), u, 0);
    if 0 <= i < man.tensors@.len() {
        assert(keys(man.tensors@)[i] == index::Keyed::key(&man.tensors@[i]));
    }
    if 0 <= i < man.inputs@.len() {
        assert(keys(man.inputs@)[i] == index::Keyed::key(&man.inputs@[i]));
    }
}

/// A text is refused for its first line that does not read, counted from one: the
/// lines before it read, and what they give does not take it. One that reads holds a
/// tensor row.
pub proof fn law_a_text_is_refused_for_its_first_line(s: Seq<char>, n: usize, e: LineError, v: SetView)
    requires
        text::lines(s).len() < usize::MAX,
    ensures
        parsed(s) == Err::<SetView, ManifestError>(ManifestError::Line(n, e)) ==> {
            let lines = text::lines(s);
            &&& 1 <= n <= lines.len()
            &&& set_of(lines.take(n - 1)) is Ok
            &&& set_step(set_of(lines.take(n - 1))->Ok_0, lines[n - 1]) == Err::<SetView, LineError>(e)
        },
        parsed(s) == Ok::<SetView, ManifestError>(v) ==> v.tensors.len() >= 1,
        parsed(s) == Err::<SetView, ManifestError>(ManifestError::NoTensorRows) ==> (set_of(
            text::lines(s),
        ) matches Ok(w) && w.tensors.len() == 0),
{
    lemma_refused_at(text::lines(s));
}

proof fn lemma_refused_at(lines: Seq<Seq<char>>)
    ensures
        set_of(lines) matches Err(p) ==> {
            &&& 0 <= p.0 < lines.len()
            &&& set_of(lines.take(p.0 as int)) is Ok
            &&& set_step(set_of(lines.take(p.0 as int))->Ok_0, lines[p.0 as int]) == Err::<
                SetView,
                LineError,
            >(p.1)
        },
    decreases lines.len(),
{
    if lines.len() > 0 {
        let before = lines.drop_last();
        lemma_refused_at(before);
        match set_of(before) {
            Err(p) => {
                assert(before.take(p.0 as int) =~= lines.take(p.0 as int));
            },
            Ok(_) => {
                assert(lines.take(lines.len() - 1) =~= before);
            },
        }
    }
}

} // verus!
