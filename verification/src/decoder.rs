//! Text out of a stream of token pieces: an incomplete UTF-8 tail is held
//! until its bytes arrive, an invalid sequence becomes U+FFFD.
use crate::text;
use vstd::prelude::*;
use vstd::slice::slice_subrange;
use vstd::utf8::decode_first_scalar;
use vstd::utf8::encode_utf8;
use vstd::utf8::is_continuation_byte;
use vstd::utf8::is_scalar;
use vstd::utf8::length_of_first_scalar;
use vstd::utf8::valid_first_scalar;

verus! {

/// std's `char::from_u32`: the character of a Unicode scalar value, and `None`
/// of any other number.
pub assume_specification[ char::from_u32 ](i: u32) -> (r: Option<char>)
    ensures
        match r {
            Some(c) => c as u32 == i,
            None => !is_scalar(i),
        },
;

/// What stands at the start of some bytes.
#[derive(Clone, Copy, Debug, PartialEq, Eq, Structural)]
pub enum Start {
    /// A character and its length.
    Char(char, usize),
    /// The beginning of a character: its other bytes may follow.
    Incomplete,
    /// This many bytes that begin no character.
    Bad(usize),
}

/// The second byte may follow the first of a character of two to four bytes:
/// no overlong form, no surrogate, nothing past the last scalar.
pub open spec fn second_fits(b0: u8, b1: u8) -> bool {
    if b0 == 0xe0 {
        0xa0 <= b1 <= 0xbf
    } else if b0 == 0xed {
        0x80 <= b1 <= 0x9f
    } else if b0 == 0xf0 {
        0x90 <= b1 <= 0xbf
    } else if b0 == 0xf4 {
        0x80 <= b1 <= 0x8f
    } else {
        0x80 <= b1 <= 0xbf
    }
}

/// The bytes are a proper beginning of a character.
pub open spec fn begins(b: Seq<u8>) -> bool {
    ||| b.len() == 1 && 0xc2 <= b[0] <= 0xf4
    ||| b.len() == 2 && 0xe0 <= b[0] <= 0xf4 && second_fits(b[0], b[1])
    ||| b.len() == 3 && 0xf0 <= b[0] <= 0xf4 && second_fits(b[0], b[1]) && is_continuation_byte(
        b[2],
    )
}

/// How many bytes of an invalid start are replaced together: its longest
/// beginning of a character, or the one byte that begins none.
pub open spec fn bad_len(b: Seq<u8>) -> int {
    if b.len() >= 3 && begins(b.take(3)) {
        3
    } else if b.len() >= 2 && begins(b.take(2)) {
        2
    } else {
        1
    }
}

/// What stands at the start of some bytes.
pub open spec fn start_of(b: Seq<u8>) -> Start {
    if valid_first_scalar(b) {
        Start::Char(decode_first_scalar(b) as char, length_of_first_scalar(b) as usize)
    } else if begins(b) {
        Start::Incomplete
    } else {
        Start::Bad(bad_len(b) as usize)
    }
}

/// The text of some bytes, and the tail that waits for more.
pub open spec fn decoded(b: Seq<u8>) -> (Seq<char>, Seq<u8>)
    decreases b.len(),
{
    if b.len() == 0 {
        (seq![], seq![])
    } else {
        match start_of(b) {
            Start::Char(c, n) => {
                let rest = decoded(b.skip(length_of_first_scalar(b)));
                (seq![c] + rest.0, rest.1)
            },
            Start::Incomplete => (seq![], b),
            Start::Bad(n) => {
                let rest = decoded(b.skip(bad_len(b)));
                (seq!['\u{fffd}'] + rest.0, rest.1)
            },
        }
    }
}

/// The text of some bytes that nothing follows: a tail that waits for more is
/// invalid.
pub open spec fn lossy(b: Seq<u8>) -> Seq<char> {
    if decoded(b).1.len() == 0 {
        decoded(b).0
    } else {
        decoded(b).0.push('\u{fffd}')
    }
}

proof fn lemma_two(b0: u8, b1: u8)
    requires
        0xc0 <= b0 <= 0xdf,
        0x80 <= b1 <= 0xbf,
    ensures
        vstd::utf8::codepoint_width_2(b0, b1) >= 0x80 <==> b0 >= 0xc2,
        vstd::utf8::codepoint_width_2(b0, b1) < 0x800,
{
    assert((((b0 & 0x1F) as u32) << 6u32) | ((b1 & 0x3f) as u32) >= 0x80 <==> b0 >= 0xc2)
        by (bit_vector)
        requires
            0xc0 <= b0 <= 0xdf,
            0x80 <= b1 <= 0xbf,
    ;
    assert((((b0 & 0x1F) as u32) << 6u32) | ((b1 & 0x3f) as u32) < 0x800) by (bit_vector);
}

proof fn lemma_three(b0: u8, b1: u8, b2: u8)
    requires
        0xe0 <= b0 <= 0xef,
        0x80 <= b1 <= 0xbf,
        0x80 <= b2 <= 0xbf,
    ensures
        ({
            let c = vstd::utf8::codepoint_width_3(b0, b1, b2);
            (c >= 0x800 && !(0xd800 <= c <= 0xdfff)) <==> second_fits(b0, b1)
        }),
        vstd::utf8::codepoint_width_3(b0, b1, b2) <= 0xffff,
{
    assert({
        let c = (((b0 & 0x0F) as u32) << 12u32) | (((b1 & 0x3f) as u32) << 6u32) | ((b2
            & 0x3f) as u32);
        (c >= 0x800 && !(0xd800 <= c && c <= 0xdfff)) <==> (if b0 == 0xe0 {
            0xa0 <= b1 && b1 <= 0xbf
        } else if b0 == 0xed {
            0x80 <= b1 && b1 <= 0x9f
        } else {
            0x80 <= b1 && b1 <= 0xbf
        })
    }) by (bit_vector)
        requires
            0xe0 <= b0 <= 0xef,
            0x80 <= b1 <= 0xbf,
            0x80 <= b2 <= 0xbf,
    ;
    assert((((b0 & 0x0F) as u32) << 12u32) | (((b1 & 0x3f) as u32) << 6u32) | ((b2 & 0x3f) as u32)
        <= 0xffff) by (bit_vector);
}

proof fn lemma_four(b0: u8, b1: u8, b2: u8, b3: u8)
    requires
        0xf0 <= b0 <= 0xf7,
        0x80 <= b1 <= 0xbf,
        0x80 <= b2 <= 0xbf,
        0x80 <= b3 <= 0xbf,
    ensures
        ({
            let c = vstd::utf8::codepoint_width_4(b0, b1, b2, b3);
            (0x10000 <= c <= 0x10ffff) <==> (b0 <= 0xf4 && second_fits(b0, b1))
        }),
{
    assert({
        let c = (((b0 & 0x07) as u32) << 18u32) | (((b1 & 0x3f) as u32) << 12u32) | (((b2
            & 0x3f) as u32) << 6u32) | ((b3 & 0x3f) as u32);
        (0x10000 <= c && c <= 0x10ffff) <==> (b0 <= 0xf4 && (if b0 == 0xf0 {
            0x90 <= b1 && b1 <= 0xbf
        } else if b0 == 0xf4 {
            0x80 <= b1 && b1 <= 0x8f
        } else {
            0x80 <= b1 && b1 <= 0xbf
        }))
    }) by (bit_vector)
        requires
            0xf0 <= b0 <= 0xf7,
            0x80 <= b1 <= 0xbf,
            0x80 <= b2 <= 0xbf,
            0x80 <= b3 <= 0xbf,
    ;
}

/// A valid start by its byte ranges.
spec fn valid_start(b: Seq<u8>) -> bool {
    ||| b.len() >= 1 && b[0] <= 0x7f
    ||| b.len() >= 2 && 0xc2 <= b[0] <= 0xdf && is_continuation_byte(b[1])
    ||| b.len() >= 3 && 0xe0 <= b[0] <= 0xef && second_fits(b[0], b[1]) && is_continuation_byte(
        b[2],
    )
    ||| b.len() >= 4 && 0xf0 <= b[0] <= 0xf4 && second_fits(b[0], b[1]) && is_continuation_byte(
        b[2],
    ) && is_continuation_byte(b[3])
}

proof fn lemma_valid_start(b: Seq<u8>)
    ensures
        valid_first_scalar(b) == valid_start(b),
        valid_start(b) ==> is_scalar(decode_first_scalar(b)) && 0 < length_of_first_scalar(b)
            <= b.len(),
{
    if b.len() >= 1 {
        if b[0] <= 0x7f {
            let b0 = b[0];
            assert(b0 & 0x7F <= 0x7f) by (bit_vector);
        } else if b.len() >= 2 && 0xc0 <= b[0] <= 0xdf && is_continuation_byte(b[1]) {
            lemma_two(b[0], b[1]);
        } else if b.len() >= 3 && 0xe0 <= b[0] <= 0xef && is_continuation_byte(b[1])
            && is_continuation_byte(b[2]) {
            lemma_three(b[0], b[1], b[2]);
        } else if b.len() >= 4 && 0xf0 <= b[0] <= 0xf7 && is_continuation_byte(b[1])
            && is_continuation_byte(b[2]) && is_continuation_byte(b[3]) {
            lemma_four(b[0], b[1], b[2], b[3]);
        }
    }
}

/// Whether the second byte may follow the first.
fn second_may_follow(b0: u8, b1: u8) -> (r: bool)
    ensures
        r == second_fits(b0, b1),
{
    let low: u8 = if b0 == 0xe0 {
        0xa0
    } else if b0 == 0xf0 {
        0x90
    } else {
        0x80
    };
    let high: u8 = if b0 == 0xed {
        0x9f
    } else if b0 == 0xf4 {
        0x8f
    } else {
        0xbf
    };
    low <= b1 && b1 <= high
}

/// The character of a scalar.
fn char_of(c: u32) -> (r: char)
    requires
        is_scalar(c),
    ensures
        r == c as char,
{
    match char::from_u32(c) {
        Some(r) => {
            proof {
                vstd::utf8::char_u32_cast(r, c);
            }
            r
        },
        None => '\u{fffd}',
    }
}

/// What stands at the start of some bytes.
#[verifier::rlimit(40)]
fn start(b: &[u8]) -> (r: Start)
    requires
        b@.len() > 0,
    ensures
        r == start_of(b@),
{
    let n: usize = b.len();
    proof {
        lemma_valid_start(b@);
        assert(n >= 2 ==> b@.take(2)[0] == b@[0] && b@.take(2)[1] == b@[1]);
        assert(n >= 3 ==> b@.take(3)[0] == b@[0] && b@.take(3)[1] == b@[1] && b@.take(3)[2]
            == b@[2]);
    }
    let b0: u8 = b[0];
    if b0 <= 0x7f {
        return Start::Char(char_of((b0 & 0x7F) as u32), 1);
    }
    if b0 < 0xc2 || b0 > 0xf4 {
        return Start::Bad(1);
    }
    if n < 2 {
        return Start::Incomplete;
    }
    let b1: u8 = b[1];
    if !second_may_follow(b0, b1) {
        return Start::Bad(1);
    }
    if b0 <= 0xdf {
        let c: u32 = (((b0 & 0x1F) as u32) << 6) | ((b1 & 0x3f) as u32);
        return Start::Char(char_of(c), 2);
    }
    if n < 3 {
        return Start::Incomplete;
    }
    let b2: u8 = b[2];
    if b2 < 0x80 || b2 > 0xbf {
        return Start::Bad(2);
    }
    if b0 <= 0xef {
        let c: u32 = (((b0 & 0x0F) as u32) << 12) | (((b1 & 0x3f) as u32) << 6) | ((b2
            & 0x3f) as u32);
        return Start::Char(char_of(c), 3);
    }
    if n < 4 {
        return Start::Incomplete;
    }
    let b3: u8 = b[3];
    if b3 < 0x80 || b3 > 0xbf {
        return Start::Bad(3);
    }
    let c: u32 = (((b0 & 0x07) as u32) << 18) | (((b1 & 0x3f) as u32) << 12) | (((b2
        & 0x3f) as u32) << 6) | ((b3 & 0x3f) as u32);
    Start::Char(char_of(c), 4)
}

/// The text of some bytes and where the tail that waits for more begins.
fn decode(b: &[u8]) -> (r: (Vec<char>, usize))
    ensures
        r.1 <= b@.len(),
        r.0@ == decoded(b@).0,
        b@.skip(r.1 as int) == decoded(b@).1,
{
    let mut out: Vec<char> = Vec::new();
    let n: usize = b.len();
    let mut at: usize = 0;
    assert(b@.skip(0) =~= b@);
    while at < n
        invariant
            at <= n == b@.len(),
            decoded(b@).0 == out@ + decoded(b@.skip(at as int)).0,
            decoded(b@).1 == decoded(b@.skip(at as int)).1,
        decreases n - at,
    {
        let rest: &[u8] = slice_subrange(b, at, n);
        assert(rest@ =~= b@.skip(at as int));
        proof {
            lemma_valid_start(rest@);
        }
        match start(rest) {
            Start::Char(c, k) => {
                assert(rest@.skip(k as int) =~= b@.skip(at + k));
                assert(out@.push(c) + decoded(b@.skip(at + k)).0 =~= out@ + (seq![c] + decoded(
                    b@.skip(at + k),
                ).0));
                out.push(c);
                at += k;
            },
            Start::Incomplete => {
                assert(out@ + Seq::<char>::empty() =~= out@);
                return (out, at);
            },
            Start::Bad(k) => {
                assert(rest@.skip(k as int) =~= b@.skip(at + k));
                assert(out@.push('\u{fffd}') + decoded(b@.skip(at + k)).0 =~= out@ + (
                seq!['\u{fffd}'] + decoded(b@.skip(at + k)).0));
                out.push('\u{fffd}');
                at += k;
            },
        }
    }
    assert(b@.skip(n as int) =~= seq![]);
    assert(out@ + Seq::<char>::empty() =~= out@);
    (out, at)
}

/// A decoder of token pieces.
#[derive(Clone, Debug)]
pub struct VocabDecoder {
    /// The bytes that wait for more.
    pub pending: Vec<u8>,
}

impl VocabDecoder {
    /// A decoder that has seen nothing.
    pub fn new() -> (r: VocabDecoder)
        ensures
            r.pending@ == Seq::<u8>::empty(),
    {
        VocabDecoder { pending: Vec::new() }
    }

    /// Takes a piece's bytes: the text they complete, `None` when they complete
    /// none.
    pub fn push(&mut self, piece: &[u8]) -> (r: Option<String>)
        ensures
            ({
                let all = old(self).pending@ + piece@;
                &&& final(self).pending@ == decoded(all).1
                &&& match r {
                    Some(s) => s@ == decoded(all).0 && s@.len() > 0,
                    None => decoded(all).0.len() == 0,
                }
            }),
    {
        let mut all: Vec<u8> = Vec::new();
        let mut i: usize = 0;
        while i < self.pending.len()
            invariant
                i <= self.pending@.len(),
                *self == *old(self),
                all@ =~= self.pending@.take(i as int),
            decreases self.pending@.len() - i,
        {
            all.push(self.pending[i]);
            i += 1;
        }
        let mut k: usize = 0;
        while k < piece.len()
            invariant
                k <= piece@.len(),
                *self == *old(self),
                all@ =~= self.pending@ + piece@.take(k as int),
            decreases piece@.len() - k,
        {
            all.push(piece[k]);
            k += 1;
        }
        assert(all@ =~= old(self).pending@ + piece@);
        let (out, at) = decode(all.as_slice());
        let n: usize = all.len();
        let mut rest: Vec<u8> = Vec::new();
        let mut j: usize = at;
        while j < n
            invariant
                at <= j <= n == all@.len(),
                rest@ =~= all@.subrange(at as int, j as int),
            decreases n - j,
        {
            rest.push(all[j]);
            j += 1;
        }
        assert(rest@ =~= all@.skip(at as int));
        self.pending = rest;
        if out.len() == 0 {
            None
        } else {
            Some(text::string_of(out.as_slice()))
        }
    }

    /// The text of what still waits, nothing following it.
    pub fn flush(&mut self) -> (r: String)
        ensures
            r@ == lossy(old(self).pending@),
            final(self).pending@ == Seq::<u8>::empty(),
    {
        let (out, at) = decode(self.pending.as_slice());
        let mut out: Vec<char> = out;
        if at < self.pending.len() {
            out.push('\u{fffd}');
        }
        self.pending = Vec::new();
        text::string_of(out.as_slice())
    }
}

/// How a stream is cut into pieces does not matter: two pieces give the text
/// and the waiting tail of the two together.
pub proof fn law_pieces_decode_as_one(a: Seq<u8>, b: Seq<u8>)
    ensures
        decoded(a + b).0 == decoded(a).0 + decoded(decoded(a).1 + b).0,
        decoded(a + b).1 == decoded(decoded(a).1 + b).1,
    decreases a.len(),
{
    if a.len() == 0 {
        assert(a + b =~= b);
        assert(decoded(a).1 + b =~= b);
        assert(decoded(a).0 + decoded(b).0 =~= decoded(b).0);
    } else {
        lemma_valid_start(a);
        lemma_valid_start(a + b);
        match start_of(a) {
            Start::Incomplete => {
                assert(decoded(a).0 + decoded(a + b).0 =~= decoded(a + b).0);
            },
            Start::Char(c, k) => {
                let n = length_of_first_scalar(a);
                assert((a + b)[0] == a[0]);
                assert(n >= 2 ==> (a + b)[1] == a[1]);
                assert(n >= 3 ==> (a + b)[2] == a[2]);
                assert(n >= 4 ==> (a + b)[3] == a[3]);
                assert((a + b).skip(n) =~= a.skip(n) + b);
                law_pieces_decode_as_one(a.skip(n), b);
                let rest = decoded(a.skip(n));
                assert(seq![c] + (rest.0 + decoded(rest.1 + b).0) =~= (seq![c] + rest.0)
                    + decoded(rest.1 + b).0);
            },
            Start::Bad(k) => {
                lemma_bad_start(a, b);
                let n = bad_len(a);
                assert((a + b).skip(n) =~= a.skip(n) + b);
                law_pieces_decode_as_one(a.skip(n), b);
                let rest = decoded(a.skip(n));
                assert(seq!['\u{fffd}'] + (rest.0 + decoded(rest.1 + b).0) =~= (seq!['\u{fffd}']
                    + rest.0) + decoded(rest.1 + b).0);
            },
        }
    }
}

/// A bad start stays one, of the same length, whatever follows.
proof fn lemma_bad_start(a: Seq<u8>, b: Seq<u8>)
    requires
        a.len() > 0,
        !valid_first_scalar(a),
        !begins(a),
    ensures
        !valid_first_scalar(a + b),
        !begins(a + b),
        bad_len(a + b) == bad_len(a),
        0 < bad_len(a) <= a.len(),
{
    lemma_valid_start(a);
    lemma_valid_start(a + b);
    let s = a + b;
    assert(s[0] == a[0]);
    if a.len() >= 2 {
        assert(s[1] == a[1]);
        assert(s.take(2) =~= a.take(2));
    } else if s.len() >= 2 {
        assert(s.take(2)[0] == a[0]);
    }
    if a.len() >= 3 {
        assert(s[2] == a[2]);
        assert(s.take(3) =~= a.take(3));
    } else if s.len() >= 3 {
        assert(s.take(3)[0] == a[0]);
        if a.len() == 2 {
            assert(s.take(3)[1] == a[1]);
            assert(a.take(2) =~= a);
        }
    }
    if a.len() >= 4 {
        assert(s[3] == a[3]);
    } else if a.len() == 3 {
        assert(a.take(3) =~= a);
    }
}

/// Well-formed text decodes to itself, nothing left waiting.
pub proof fn law_text_decodes_to_itself(s: Seq<char>)
    ensures
        decoded(encode_utf8(s)).0 == s,
        decoded(encode_utf8(s)).1.len() == 0,
    decreases s.len(),
{
    if s.len() > 0 {
        let b = encode_utf8(s);
        vstd::utf8::encode_utf8_first_scalar(s);
        vstd::utf8::char_u32_cast(s[0], decode_first_scalar(b));
        lemma_valid_start(b);
        assert(b.skip(length_of_first_scalar(b)) =~= encode_utf8(s.drop_first()));
        law_text_decodes_to_itself(s.drop_first());
        assert(seq![s[0]] + s.drop_first() =~= s);
    }
}

/// What waits is a proper beginning of one character.
pub proof fn law_what_waits_begins_a_character(b: Seq<u8>)
    ensures
        decoded(b).1.len() == 0 || begins(decoded(b).1),
        decoded(b).1.len() < 4,
    decreases b.len(),
{
    if b.len() > 0 {
        lemma_valid_start(b);
        match start_of(b) {
            Start::Char(c, n) => law_what_waits_begins_a_character(
                b.skip(length_of_first_scalar(b)),
            ),
            Start::Incomplete => {},
            Start::Bad(n) => law_what_waits_begins_a_character(b.skip(bad_len(b))),
        }
    }
}

/// A byte that begins no character is one replacement character, whatever follows
/// it; and an unfinished character that an ASCII byte cuts off is one too, the byte
/// standing for itself.
pub proof fn law_what_is_broken_is_replaced(b: u8, rest: Seq<u8>, c: char, n: int, x: u8)
    requires
        0x80 <= b <= 0xc1 || 0xf5 <= b,
        0 < n < encode_utf8(seq![c]).len(),
        x < 0x80,
    ensures
        decoded(seq![b] + rest).0 == seq!['\u{fffd}'] + decoded(rest).0,
        decoded(seq![b] + rest).1 == decoded(rest).1,
        ({
            let p = encode_utf8(seq![c]).take(n);
            &&& decoded(p) == (Seq::<char>::empty(), p)
            &&& lossy(p) == seq!['\u{fffd}']
            &&& decoded(p + (seq![x] + rest)).0 == seq!['\u{fffd}'] + decoded(seq![x] + rest).0
            &&& decoded(p + (seq![x] + rest)).1 == decoded(seq![x] + rest).1
        }),
{
    let s = seq![b] + rest;
    lemma_valid_start(s);
    assert(s[0] == b);
    if s.len() >= 2 {
        assert(s.take(2)[0] == b);
    }
    if s.len() >= 3 {
        assert(s.take(3)[0] == b);
    }
    assert(bad_len(s) == 1);
    assert(s.skip(1) =~= rest);
    let e = encode_utf8(seq![c]);
    vstd::utf8::encode_utf8_first_scalar(seq![c]);
    lemma_valid_start(e);
    assert(seq![c].drop_first() =~= Seq::<char>::empty());
    assert(e.len() == length_of_first_scalar(e)) by {
        assert(encode_utf8(Seq::<char>::empty()) =~= Seq::<u8>::empty());
    }
    let p = e.take(n);
    assert(valid_start(e));
    assert(begins(p));
    lemma_valid_start(p);
    assert(!valid_first_scalar(p));
    assert(lossy(p) =~= seq!['\u{fffd}']);
    let t = p + (seq![x] + rest);
    lemma_valid_start(t);
    assert forall|i: int| 0 <= i < n implies #[trigger] t[i] == e[i] by {}
    assert(t[n] == x);
    assert(!valid_start(t));
    assert(!begins(t));
    assert(t.take(n) =~= p);
    if n < 3 && t.len() >= 3 {
        assert(!begins(t.take(3)));
    }
    if n < 2 && t.len() >= 2 {
        assert(!begins(t.take(2)));
    }
    assert(bad_len(t) == n);
    assert(t.skip(n) =~= seq![x] + rest);
}

} // verus!
