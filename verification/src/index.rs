//! Where each row sits in its list, keyed the way readers look rows up: by
//! name, then occurrence, and for an `int` row also the kind and layout of the
//! file it twins. The index is built once over the rows; of a repeated key it
//! keeps the first row, the one a scan in file order finds. A lookup checks
//! that the row it lands on carries the key, so an answer always comes from
//! the rows themselves.
use crate::count::count_where;
use crate::gate::fnv;
use crate::gate::fnv_start;
use crate::gate::Fnv1a64;
use crate::naming::Layout;
use crate::naming::RowKind;
use std::collections::HashMap;
use vstd::prelude::*;
use vstd::utf8::encode_utf8;

verus! {

broadcast use vstd::std_specs::hash::group_hash_axioms;

/// What a row is looked up by.
pub ghost struct RowKey {
    pub name: Seq<char>,
    pub occurrence: u32,
    pub of: RowKind,
    pub layout: Layout,
}

/// A row that carries a key.
pub trait Keyed: Sized {
    /// The row's key.
    spec fn key(&self) -> RowKey;

    /// The digest of the key's name.
    fn name_digest(&self) -> (r: u64)
        ensures
            r == digest(self.key().name),
    ;

    /// Whether the row's key is this one.
    fn has_key(&self, name: &str, occurrence: u32, of: RowKind, layout: Layout) -> (r: bool)
        ensures
            r == (self.key() == (RowKey { name: name@, occurrence, of, layout })),
    ;

    /// Whether the row has this name.
    fn has_name(&self, name: &str) -> (r: bool)
        ensures
            r == (self.key().name == name@),
    ;

    /// Whether two rows carry the same key.
    fn same_key(&self, other: &Self) -> (r: bool)
        ensures
            r == (self.key() == other.key()),
    ;
}

/// The keys of a list of rows.
pub open spec fn keys<T: Keyed>(rows: Seq<T>) -> Seq<RowKey> {
    rows.map_values(|r: T| r.key())
}

/// The digest a name is filed under.
pub open spec fn digest(name: Seq<char>) -> u64 {
    fnv(fnv_start(), encode_utf8(name))
}

/// The digest a name is filed under.
pub fn digest_of(name: &str) -> (r: u64)
    ensures
        r == digest(name@),
{
    Fnv1a64::default().bytes(name.as_bytes()).value()
}

/// The first position from `at` on whose key is `k`: where a scan in file
/// order finds it.
pub open spec fn first_key(keys: Seq<RowKey>, k: RowKey, at: int) -> Option<int>
    decreases keys.len() - at,
{
    if at < 0 || at >= keys.len() {
        None
    } else if keys[at] == k {
        Some(at)
    } else {
        first_key(keys, k, at + 1)
    }
}

/// The first position from `at` on whose name is `name`.
pub open spec fn first_name(keys: Seq<RowKey>, name: Seq<char>, at: int) -> Option<int>
    decreases keys.len() - at,
{
    if at < 0 || at >= keys.len() {
        None
    } else if keys[at].name == name {
        Some(at)
    } else {
        first_name(keys, name, at + 1)
    }
}

/// The positions whose key an earlier position already carries.
pub open spec fn repeated(keys: Seq<RowKey>) -> spec_fn(int) -> bool {
    |i: int| first_key(keys, keys[i], 0) != Some(i)
}

/// What a scan for a key finds is the least position that carries it.
pub proof fn lemma_first_key(keys: Seq<RowKey>, k: RowKey, at: int)
    requires
        0 <= at,
    ensures
        match first_key(keys, k, at) {
            Some(i) => at <= i < keys.len() && keys[i] == k && forall|j: int|
                at <= j < i ==> #[trigger] keys[j] != k,
            None => forall|j: int| at <= j < keys.len() ==> #[trigger] keys[j] != k,
        },
    decreases keys.len() - at,
{
    if at < keys.len() && keys[at] != k {
        lemma_first_key(keys, k, at + 1);
    }
}

/// What a scan for a name finds is the least position that carries it.
pub proof fn lemma_first_name(keys: Seq<RowKey>, name: Seq<char>, at: int)
    requires
        0 <= at,
    ensures
        match first_name(keys, name, at) {
            Some(i) => at <= i < keys.len() && keys[i].name == name && forall|j: int|
                at <= j < i ==> (#[trigger] keys[j]).name != name,
            None => forall|j: int| at <= j < keys.len() ==> (#[trigger] keys[j]).name != name,
        },
    decreases keys.len() - at,
{
    if at < keys.len() && keys[at].name != name {
        lemma_first_name(keys, name, at + 1);
    }
}

/// The positions of the first rows of their keys, filed under their names'
/// digests.
#[derive(Debug, Clone)]
pub struct RowIndex {
    buckets: HashMap<u64, Vec<usize>>,
}

impl RowIndex {
    /// The index files every first row of its key below `limit`, and files
    /// nothing else.
    closed spec fn files(&self, keys: Seq<RowKey>, limit: int) -> bool {
        &&& forall|d: u64, j: int|
            self.buckets@.contains_key(d) && 0 <= j < self.buckets@[d]@.len() ==> {
                let at = #[trigger] self.buckets@[d]@[j];
                &&& at < limit
                &&& digest(keys[at as int].name) == d
                &&& first_key(keys, keys[at as int], 0) == Some(at as int)
            }
        &&& forall|at: int|
            0 <= at < limit && first_key(keys, #[trigger] keys[at], 0) == Some(at)
                ==> self.filed(digest(keys[at].name), at)
    }

    /// Position `at` is filed under `d`.
    closed spec fn filed(&self, d: u64, at: int) -> bool {
        self.buckets@.contains_key(d) && exists|j: int|
            0 <= j < self.buckets@[d]@.len() && #[trigger] self.buckets@[d]@[j] == at
    }

    /// The index is one of rows with these keys.
    pub closed spec fn indexes(&self, keys: Seq<RowKey>) -> bool {
        self.files(keys, keys.len() as int)
    }

    /// The index of no rows.
    pub fn empty() -> (r: RowIndex)
        ensures
            r.indexes(seq![]),
    {
        RowIndex { buckets: HashMap::new() }
    }

    /// The index of `rows`, and how many of them carry a key that an earlier
    /// one already carries.
    pub fn over<T: Keyed>(rows: &[T]) -> (r: (RowIndex, usize))
        ensures
            r.0.indexes(keys(rows@)),
            r.1 == count_where(rows@.len() as int, repeated(keys(rows@))),
    {
        let mut ix: RowIndex = RowIndex { buckets: HashMap::new() };
        let mut duplicates: usize = 0;
        let ghost ks = keys(rows@);
        let mut at: usize = 0;
        while at < rows.len()
            invariant
                at <= rows@.len(),
                ks == keys(rows@),
                ix.files(ks, at as int),
                duplicates <= at,
                duplicates == count_where(at as int, repeated(ks)),
            decreases rows@.len() - at,
        {
            let d: u64 = rows[at].name_digest();
            assert(ks[at as int] == rows@[at as int].key());
            let ghost before = ix;
            let mut bucket: Vec<usize> = match ix.buckets.remove(&d) {
                Some(b) => b,
                None => Vec::new(),
            };
            let ghost held = bucket@;
            let mut seen: bool = false;
            let mut j: usize = 0;
            proof {
                lemma_first_key(ks, ks[at as int], 0);
            }
            while j < bucket.len()
                invariant
                    j <= bucket@.len(),
                    at < rows@.len(),
                    ks == keys(rows@),
                    bucket@ == held,
                    forall|m: int| 0 <= m < held.len() ==> #[trigger] held[m] < at,
                    seen <==> exists|m: int|
                        0 <= m < j && ks[#[trigger] held[m] as int] == ks[at as int],
                decreases bucket@.len() - j,
            {
                let p: usize = bucket[j];
                assert(ks[p as int] == rows@[p as int].key());
                if rows[p].same_key(&rows[at]) {
                    seen = true;
                }
                j += 1;
            }
            let ghost first = first_key(ks, ks[at as int], 0) == Some(at as int);
            proof {
                if !first {
                    let f = first_key(ks, ks[at as int], 0)->0;
                    assert(ks[f] == ks[at as int]);
                }
                assert(seen == !first);
            }
            if seen {
                duplicates += 1;
            } else {
                bucket.push(at);
            }
            let ghost kept = bucket@;
            ix.buckets.insert(d, bucket);
            proof {
                assert(ix.buckets@[d]@ == kept);
                assert forall|a: int| 0 <= a < at + 1 && first_key(ks, #[trigger] ks[a], 0) == Some(
                    a,
                ) implies ix.filed(digest(ks[a].name), a) by {
                    let dd = digest(ks[a].name);
                    if a < at {
                        assert(before.filed(dd, a));
                        let m = choose|m: int|
                            0 <= m < before.buckets@[dd]@.len()
                                && #[trigger] before.buckets@[dd]@[m] == a;
                        assert(ix.buckets@[dd]@[m] == a);
                    } else {
                        assert(ix.buckets@[dd]@[kept.len() - 1] == at);
                    }
                }
            }
            at += 1;
        }
        (ix, duplicates)
    }

    /// Where the row with this key sits among `rows`: the row a scan finds
    /// first.
    pub fn position<T: Keyed>(
        &self,
        rows: &[T],
        name: &str,
        occurrence: u32,
        of: RowKind,
        layout: Layout,
    ) -> (r: Option<usize>)
        requires
            self.indexes(keys(rows@)),
        ensures
            match r {
                Some(i) => i < rows@.len() && first_key(
                    keys(rows@),
                    RowKey { name: name@, occurrence, of, layout },
                    0,
                ) == Some(i as int),
                None => first_key(
                    keys(rows@),
                    RowKey { name: name@, occurrence, of, layout },
                    0,
                ) is None,
            },
    {
        let d: u64 = digest_of(name);
        let ghost ks = keys(rows@);
        let ghost k = RowKey { name: name@, occurrence, of, layout };
        proof {
            lemma_first_key(ks, k, 0);
            if let Some(f) = first_key(ks, k, 0) {
                assert(first_key(ks, ks[f], 0) == Some(f));
                assert(self.filed(digest(ks[f].name), f));
            }
        }
        match self.buckets.get(&d) {
            None => None,
            Some(bucket) => {
                let mut j: usize = 0;
                while j < bucket.len()
                    invariant
                        j <= bucket@.len(),
                        ks == keys(rows@),
                        k == (RowKey { name: name@, occurrence, of, layout }),
                        self.indexes(ks),
                        self.buckets@.contains_key(d),
                        self.buckets@[d]@ == bucket@,
                        forall|m: int|
                            0 <= m < j ==> ks[#[trigger] bucket@[m] as int] != k,
                    decreases bucket@.len() - j,
                {
                    let at: usize = bucket[j];
                    assert(self.buckets@[d]@[j as int] == at);
                    assert(ks[at as int] == rows@[at as int].key());
                    if rows[at].has_key(name, occurrence, of, layout) {
                        return Some(at);
                    }
                    j += 1;
                }
                None
            },
        }
    }

    /// Where the first row of this name sits among `rows`, whatever its
    /// occurrence: the row a scan finds first.
    pub fn first_named<T: Keyed>(&self, rows: &[T], name: &str) -> (r: Option<usize>)
        requires
            self.indexes(keys(rows@)),
        ensures
            match r {
                Some(i) => i < rows@.len() && first_name(keys(rows@), name@, 0) == Some(i as int),
                None => first_name(keys(rows@), name@, 0) is None,
            },
    {
        let d: u64 = digest_of(name);
        let ghost ks = keys(rows@);
        proof {
            lemma_first_name(ks, name@, 0);
            if let Some(f) = first_name(ks, name@, 0) {
                lemma_first_key(ks, ks[f], 0);
                assert(first_key(ks, ks[f], 0) == Some(f));
                assert(self.filed(digest(ks[f].name), f));
            }
        }
        match self.buckets.get(&d) {
            None => None,
            Some(bucket) => {
                let mut least: Option<usize> = None;
                let mut j: usize = 0;
                while j < bucket.len()
                    invariant
                        j <= bucket@.len(),
                        ks == keys(rows@),
                        self.indexes(ks),
                        self.buckets@.contains_key(d),
                        self.buckets@[d]@ == bucket@,
                        match least {
                            Some(i) => {
                                &&& i < rows@.len()
                                &&& ks[i as int].name == name@
                                &&& forall|m: int|
                                    0 <= m < j && ks[#[trigger] bucket@[m] as int].name == name@
                                        ==> i <= bucket@[m]
                            },
                            None => forall|m: int|
                                0 <= m < j ==> ks[#[trigger] bucket@[m] as int].name != name@,
                        },
                    decreases bucket@.len() - j,
                {
                    let at: usize = bucket[j];
                    assert(self.buckets@[d]@[j as int] == at);
                    assert(ks[at as int] == rows@[at as int].key());
                    if rows[at].has_name(name) {
                        least = match least {
                            Some(i) => if i <= at {
                                Some(i)
                            } else {
                                Some(at)
                            },
                            None => Some(at),
                        };
                    }
                    j += 1;
                }
                proof {
                    if let Some(f) = first_name(ks, name@, 0) {
                        let m = choose|m: int|
                            0 <= m < bucket@.len() && #[trigger] self.buckets@[d]@[m] == f;
                        assert(bucket@[m] == f);
                    }
                }
                least
            },
        }
    }
}

} // verus!
