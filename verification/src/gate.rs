//! What every gate shares: the words it prints, the digest it pins bits by,
//! and the load unit of the kernels.
use crate::ptx;
use crate::text;
use vstd::prelude::*;

verus! {

/// The word a gate prints for one check's outcome: `PASS` or `FAIL`. The
/// gates' tables are compared line by line across rounds, so the spelling has
/// one owner.
pub fn verdict(pass: bool) -> (r: &'static str)
    ensures
        r@ == if pass {
            "PASS"@
        } else {
            "FAIL"@
        },
{
    if pass {
        "PASS"
    } else {
        "FAIL"
    }
}

/// The error a gate ends with when one of its checks came out false. Every
/// failing check has printed its own line by then.
pub fn checks_failed() -> (r: String)
    ensures
        r@ == "FAILED: one or more checks above did not pass"@,
{
    "FAILED: one or more checks above did not pass".to_owned()
}

/// The values of `v` with a comma between each two: how a gate's line prints a
/// list of positions, rows or slots. Each value is written as its own
/// `to_string` writes it.
pub fn comma_list<T: core::fmt::Display>(v: &[T]) -> (r: String)
    ensures
        exists|parts: Seq<String>|
            parts.len() == v@.len() && (forall|i: int|
                0 <= i < v@.len() ==> vstd::string::to_string_from_display_ensures::<T>(
                    &v@[i],
                    #[trigger] parts[i],
                )) && r@ == #[trigger] text::join(text::strings(parts), ','),
{
    let mut out: Vec<char> = Vec::new();
    let ghost mut parts: Seq<String> = seq![];
    let mut i: usize = 0;
    assert(text::strings(parts) =~= Seq::<Seq<char>>::empty());
    while i < v.len()
        invariant
            i <= v@.len(),
            parts.len() == i,
            forall|k: int|
                0 <= k < i ==> vstd::string::to_string_from_display_ensures::<T>(
                    &v@[k],
                    #[trigger] parts[k],
                ),
            out@ == text::join(text::strings(parts), ','),
        decreases v@.len() - i,
    {
        let s: String = v[i].to_string();
        let ghost before = out@;
        let ghost held = parts;
        if i > 0 {
            out.push(',');
        }
        text::push_str(&mut out, s.as_str());
        proof {
            parts = parts.push(s);
            assert(text::strings(parts) =~= text::strings(held).push(s@));
            assert(text::strings(parts).drop_last() =~= text::strings(held));
            assert(out@ =~= text::join(text::strings(parts), ','));
        }
        i += 1;
    }
    text::string_of(out.as_slice())
}

// ------------------------------------------------------------ digest

/// The digest of no bytes.
pub open spec fn fnv_start() -> u64 {
    0xcbf2_9ce4_8422_2325
}

/// The digest continued over one byte.
pub open spec fn fnv_step(h: u64, b: u8) -> u64 {
    (h ^ (b as u64)).wrapping_mul(0x0000_0100_0000_01b3)
}

/// The digest continued over bytes.
pub open spec fn fnv(h: u64, bytes: Seq<u8>) -> u64
    decreases bytes.len(),
{
    if bytes.len() == 0 {
        h
    } else {
        fnv_step(fnv(h, bytes.drop_last()), bytes.last())
    }
}

/// The four bytes of a word, least significant first.
pub open spec fn le_bytes(x: u32) -> Seq<u8> {
    seq![
        (x % 256) as u8,
        (x / 256 % 256) as u8,
        (x / 65536 % 256) as u8,
        (x / 16777216) as u8,
    ]
}

/// The bytes of words, one after the other.
pub open spec fn le_bytes_of(v: Seq<u32>) -> Seq<u8>
    decreases v.len(),
{
    if v.len() == 0 {
        seq![]
    } else {
        le_bytes_of(v.drop_last()) + le_bytes(v.last())
    }
}

/// FNV-1a 64 over bytes fed in order: the digest a gate prints over a
/// kernel's output bits and pins, so a change that must move no bit is read
/// against one line. [`Default`] is the digest of no bytes.
#[derive(Clone, Copy, Debug)]
pub struct Fnv1a64(u64);

impl View for Fnv1a64 {
    type V = u64;

    closed spec fn view(&self) -> u64 {
        self.0
    }
}

impl Default for Fnv1a64 {
    fn default() -> (r: Fnv1a64)
        ensures
            r@ == fnv_start(),
    {
        Fnv1a64(0xcbf2_9ce4_8422_2325)
    }
}

impl Fnv1a64 {
    /// The digest continued over `bytes`.
    #[must_use]
    pub fn bytes(self, bytes: &[u8]) -> (r: Fnv1a64)
        ensures
            r@ == fnv(self@, bytes@),
    {
        let mut h: u64 = self.0;
        let mut i: usize = 0;
        while i < bytes.len()
            invariant
                i <= bytes@.len(),
                h == fnv(self@, bytes@.take(i as int)),
            decreases bytes@.len() - i,
        {
            assert(bytes@.take(i + 1).drop_last() =~= bytes@.take(i as int));
            h = (h ^ (bytes[i] as u64)).wrapping_mul(0x0000_0100_0000_01b3);
            i += 1;
        }
        assert(bytes@.take(bytes@.len() as int) =~= bytes@);
        Fnv1a64(h)
    }

    /// The digest continued over each value, little-endian. A list of singles
    /// is fed by its bits.
    #[must_use]
    pub fn u32s(self, v: &[u32]) -> (r: Fnv1a64)
        ensures
            r@ == fnv(self@, le_bytes_of(v@)),
    {
        let mut h: Fnv1a64 = self;
        let mut i: usize = 0;
        while i < v.len()
            invariant
                i <= v@.len(),
                h@ == fnv(self@, le_bytes_of(v@.take(i as int))),
            decreases v@.len() - i,
        {
            let x: u32 = v[i];
            let le: [u8; 4] = [
                (x % 256) as u8,
                (x / 256 % 256) as u8,
                (x / 65536 % 256) as u8,
                (x / 16777216) as u8,
            ];
            proof {
                assert(le@ =~= le_bytes(x));
                assert(v@.take(i + 1).drop_last() =~= v@.take(i as int));
                law_digest_continues(self@, le_bytes_of(v@.take(i as int)), le_bytes(x));
            }
            h = h.bytes(le.as_slice());
            i += 1;
        }
        assert(v@.take(v@.len() as int) =~= v@);
        h
    }

    /// The digest's value.
    #[must_use]
    pub fn value(self) -> (r: u64)
        ensures
            r == self@,
    {
        self.0
    }
}

/// Feeding bytes in two goes is feeding them in one.
pub proof fn law_digest_continues(h: u64, a: Seq<u8>, b: Seq<u8>)
    ensures
        fnv(h, a + b) == fnv(fnv(h, a), b),
    decreases b.len(),
{
    if b.len() == 0 {
        assert(a + b =~= a);
    } else {
        assert((a + b).drop_last() =~= a + b.drop_last());
        law_digest_continues(h, a, b.drop_last());
    }
}

// ------------------------------------------------------------ words

/// Byte `i` of `b`, zero past its end.
pub open spec fn padded(b: Seq<u8>, i: int) -> int {
    if i < b.len() {
        b[i] as int
    } else {
        0
    }
}

/// Word `k` of `b`: four bytes, least significant first.
pub open spec fn word_at(b: Seq<u8>, k: int) -> int {
    padded(b, 4 * k) + 256 * padded(b, 4 * k + 1) + 65536 * padded(b, 4 * k + 2) + 16777216
        * padded(b, 4 * k + 3)
}

/// Raw little-endian bytes as `u32` words (the K-quant kernels' load unit). A
/// length that is not a multiple of 4 is zero-padded in the last word.
pub fn bytes_to_words(b: &[u8]) -> (r: Vec<u32>)
    ensures
        r@.len() == (b@.len() + 3) / 4,
        forall|k: int| 0 <= k < r@.len() ==> #[trigger] r@[k] == word_at(b@, k),
{
    let n: usize = b.len();
    let mut out: Vec<u32> = Vec::new();
    let mut at: usize = 0;
    while at < n
        invariant
            n == b@.len(),
            at == 4 * out@.len() || at == n,
            at <= n,
            at < n ==> at == 4 * out@.len(),
            at == n ==> out@.len() == (n + 3) / 4,
            forall|k: int| 0 <= k < out@.len() ==> #[trigger] out@[k] == word_at(b@, k),
        decreases n - at,
    {
        let left: usize = n - at;
        let b0: u32 = b[at] as u32;
        let b1: u32 = if left > 1 {
            b[at + 1] as u32
        } else {
            0
        };
        let b2: u32 = if left > 2 {
            b[at + 2] as u32
        } else {
            0
        };
        let b3: u32 = if left > 3 {
            b[at + 3] as u32
        } else {
            0
        };
        let w: u32 = b0 + 256 * b1 + 65536 * b2 + 16777216 * b3;
        assert(w == word_at(b@, out@.len() as int));
        out.push(w);
        if left > 4 {
            at = at + 4;
        } else {
            at = n;
        }
    }
    out
}

// ------------------------------------------------------------ shapes

/// No entry the executable carries has this name: its place in the list.
#[derive(Clone, Copy, Debug, PartialEq, Eq, Structural)]
pub struct MissingEntry(pub usize);

/// An entry compiled without a local depot and without local loads or stores.
pub open spec fn spills_nothing(b: Seq<u8>) -> bool {
    &&& ptx::first_match(b, vstd::utf8::encode_utf8("__local_depot"@)) is None
    &&& ptx::occurrences(b, vstd::utf8::encode_utf8("ld.local"@)) == 0
    &&& ptx::occurrences(b, vstd::utf8::encode_utf8("st.local"@)) == 0
}

/// The line a shape check prints for one entry.
pub fn shape_line(c: &ptx::Counts) -> (r: String)
    ensures
        r@ == "shape kernel="@ + c.name@ + " local_depot="@ + (if c.depot {
            "true"@
        } else {
            "false"@
        }) + " ld_local="@ + text::decimal(c.ld_local as nat) + " st_local="@ + text::decimal(
            c.st_local as nat,
        ),
{
    let mut out: Vec<char> = text::chars_of("shape kernel=");
    text::push_str(&mut out, c.name.as_str());
    text::push_str(&mut out, " local_depot=");
    text::push_str(
        &mut out,
        if c.depot {
            "true"
        } else {
            "false"
        },
    );
    text::push_str(&mut out, " ld_local=");
    text::push_decimal(&mut out, c.ld_local as u64);
    text::push_str(&mut out, " st_local=");
    text::push_decimal(&mut out, c.st_local as u64);
    text::string_of(out.as_slice())
}

/// Whether every entry of `entries` compiles with no local depot and no local
/// loads or stores; the first entry that no module carries is an error. A
/// spilled accumulator array changes no output and no band, only the time, so
/// nothing else a gate checks can see it.
pub fn no_local_depot(modules: &[ptx::Module<'_>], entries: &[&str]) -> (r: Result<
    bool,
    MissingEntry,
>)
    ensures
        match r {
            Ok(ok) => {
                &&& forall|i: int|
                    0 <= i < entries@.len() ==> ptx::body_of(
                        ptx::module_views(modules@),
                        (#[trigger] entries@[i])@,
                    ) is Some
                &&& ok <==> forall|i: int|
                    0 <= i < entries@.len() ==> spills_nothing(
                        ptx::body_of(ptx::module_views(modules@), (#[trigger] entries@[i])@)->0,
                    )
            },
            Err(MissingEntry(k)) => {
                &&& k < entries@.len()
                &&& ptx::body_of(ptx::module_views(modules@), entries@[k as int]@) is None
                &&& forall|i: int|
                    0 <= i < k ==> ptx::body_of(
                        ptx::module_views(modules@),
                        (#[trigger] entries@[i])@,
                    ) is Some
            },
        },
{
    let ghost views = ptx::module_views(modules@);
    let mut ok: bool = true;
    let mut k: usize = 0;
    while k < entries.len()
        invariant
            k <= entries@.len(),
            views == ptx::module_views(modules@),
            forall|i: int|
                0 <= i < k ==> ptx::body_of(views, (#[trigger] entries@[i])@) is Some,
            ok <==> forall|i: int|
                0 <= i < k ==> spills_nothing(
                    ptx::body_of(views, (#[trigger] entries@[i])@)->0,
                ),
        decreases entries@.len() - k,
    {
        match ptx::counts(modules, entries[k]) {
            None => {
                return Err(MissingEntry(k));
            },
            Some(c) => {
                let pass: bool = !c.depot && c.ld_local == 0 && c.st_local == 0;
                assert(pass == spills_nothing(ptx::body_of(views, entries@[k as int]@)->0));
                ok = ok && pass;
            },
        }
        k += 1;
    }
    Ok(ok)
}

/// A word is its four bytes, the low one first; bytes past the end read as zero.
pub proof fn law_a_word_is_its_bytes(b: Seq<u8>, k: int)
    requires
        0 <= k,
        4 * k < b.len(),
    ensures
        0 <= word_at(b, k) < 0x1_0000_0000,
        word_at(b, k) % 256 == b[4 * k],
        word_at(b, k) / 256 % 256 == (if 4 * k + 1 < b.len() {
            b[4 * k + 1]
        } else {
            0
        }),
        word_at(b, k) / 65536 % 256 == (if 4 * k + 2 < b.len() {
            b[4 * k + 2]
        } else {
            0
        }),
        word_at(b, k) / 16777216 == (if 4 * k + 3 < b.len() {
            b[4 * k + 3]
        } else {
            0
        }),
{
}

/// The bytes of words read back as the words.
pub proof fn law_words_read_back(v: Seq<u32>, k: int)
    requires
        0 <= k < v.len(),
    ensures
        le_bytes_of(v).len() == 4 * v.len(),
        word_at(le_bytes_of(v), k) == v[k],
    decreases v.len(),
{
    let b = le_bytes_of(v);
    let w = v.drop_last();
    if k < v.len() - 1 {
        law_words_read_back(w, k);
        let c = le_bytes_of(w);
        assert(b[4 * k] == c[4 * k] && b[4 * k + 1] == c[4 * k + 1]);
        assert(b[4 * k + 2] == c[4 * k + 2] && b[4 * k + 3] == c[4 * k + 3]);
    } else {
        lemma_bytes_len(w);
        let x = v.last();
        let l = le_bytes(x);
        assert(b[4 * k] == l[0] && b[4 * k + 1] == l[1]);
        assert(b[4 * k + 2] == l[2] && b[4 * k + 3] == l[3]);
        assert(x / 65536 == x / 256 / 256 && x / 16777216 == x / 65536 / 256);
    }
}

proof fn lemma_bytes_len(v: Seq<u32>)
    ensures
        le_bytes_of(v).len() == 4 * v.len(),
    decreases v.len(),
{
    if v.len() > 0 {
        lemma_bytes_len(v.drop_last());
    }
}

/// The digest is FNV-1a of 64 bits: it starts at the offset basis, and each byte is
/// mixed in before the product with the prime, so a zero byte is that product
/// alone.
pub proof fn law_the_digest_is_fnv1a(h: u64, b: u8)
    ensures
        fnv_start() == 14695981039346656037,
        fnv(h, Seq::empty()) == h,
        fnv(h, seq![0u8]) as int == (h * 1099511628211) % 0x1_0000_0000_0000_0000,
        fnv(0, seq![b]) as int == b * 1099511628211,
        fnv(h, seq![b]) == fnv(h ^ (b as u64), seq![0u8]),
{
    assert(seq![0u8].drop_last() =~= Seq::<u8>::empty());
    assert(seq![b].drop_last() =~= Seq::<u8>::empty());
    reveal_with_fuel(fnv, 2);
    assert(h ^ 0 == h) by (bit_vector);
    let g = h ^ (b as u64);
    assert(g ^ 0 == g) by (bit_vector);
    let x = b as u64;
    assert(0 ^ x == x) by (bit_vector);
    assert(0 <= b * 1099511628211 < 0x1_0000_0000_0000_0000);
}

} // verus!
