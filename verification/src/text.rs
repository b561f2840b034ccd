//! Text as characters: the strings the gates read and write, taken apart and
//! put together over their character sequences.
use vstd::prelude::*;

verus! {

/// `String::push` appends one character to the end of the string and changes
/// nothing else.
pub assume_specification[ String::push ](s: &mut String, ch: char)
    ensures
        final(s)@ == old(s)@.push(ch),
;

/// The character sequences of a list of strings.
pub open spec fn strings(v: Seq<String>) -> Seq<Seq<char>> {
    v.map_values(|s: String| s@)
}

/// The characters of `s`.
pub fn chars_of(s: &str) -> (r: Vec<char>)
    ensures
        r@ == s@,
{
    let mut r: Vec<char> = Vec::new();
    for c in it: s.chars()
        invariant
            r@ =~= it.seq().take(it.index() as int),
            it.seq() == s@,
    {
        r.push(c);
    }
    r
}

/// The string of the characters `cs`.
pub fn string_of(cs: &[char]) -> (r: String)
    ensures
        r@ == cs@,
{
    let mut r: String = String::new();
    for i in 0..cs.len()
        invariant
            r@ == cs@.take(i as int),
    {
        r.push(cs[i]);
        assert(cs@.take(i + 1) =~= cs@.take(i as int).push(cs@[i as int]));
    }
    assert(cs@.take(cs@.len() as int) =~= cs@);
    r
}

/// Whether `a` comes before `b` in dictionary order of their characters, read
/// from position `i` on.
pub open spec fn lex_less_from(a: Seq<char>, b: Seq<char>, i: int) -> bool
    decreases b.len() - i,
{
    if i < 0 || i >= b.len() {
        false
    } else if i >= a.len() {
        true
    } else if a[i] != b[i] {
        a[i] < b[i]
    } else {
        lex_less_from(a, b, i + 1)
    }
}

/// Dictionary order of strings.
pub open spec fn lex_less(a: Seq<char>, b: Seq<char>) -> bool {
    lex_less_from(a, b, 0)
}

/// Whether `a` comes before `b` in dictionary order.
pub fn less(a: &[char], b: &[char]) -> (r: bool)
    ensures
        r == lex_less(a@, b@),
{
    let mut i: usize = 0;
    while i < b.len()
        invariant
            i <= b@.len(),
            i <= a@.len(),
            lex_less(a@, b@) == lex_less_from(a@, b@, i as int),
        decreases b@.len() - i,
    {
        if i >= a.len() {
            return true;
        }
        if a[i] != b[i] {
            return a[i] < b[i];
        }
        i += 1;
    }
    false
}

/// Whether two character sequences are the same.
pub fn same(a: &[char], b: &[char]) -> (r: bool)
    ensures
        r == (a@ == b@),
{
    if a.len() != b.len() {
        return false;
    }
    let mut i: usize = 0;
    while i < a.len()
        invariant
            i <= a@.len(),
            a@.len() == b@.len(),
            forall|k: int| 0 <= k < i ==> a@[k] == b@[k],
        decreases a@.len() - i,
    {
        if a[i] != b[i] {
            assert(a@[i as int] != b@[i as int]);
            return false;
        }
        i += 1;
    }
    assert(a@ =~= b@);
    true
}

/// No string comes before itself.
pub proof fn lemma_lex_irreflexive(a: Seq<char>, i: int)
    requires
        0 <= i,
    ensures
        !lex_less_from(a, a, i),
    decreases a.len() - i,
{
    if i < a.len() {
        lemma_lex_irreflexive(a, i + 1);
    }
}

/// Dictionary order is transitive.
pub proof fn lemma_lex_transitive(a: Seq<char>, b: Seq<char>, c: Seq<char>, i: int)
    requires
        0 <= i,
        lex_less_from(a, b, i),
        lex_less_from(b, c, i),
    ensures
        lex_less_from(a, c, i),
    decreases c.len() - i,
{
    if i < a.len() && i < b.len() && i < c.len() && a[i] == b[i] && b[i] == c[i] {
        lemma_lex_transitive(a, b, c, i + 1);
    }
}

/// Of two different strings one comes before the other.
pub proof fn lemma_lex_total(a: Seq<char>, b: Seq<char>, i: int)
    requires
        0 <= i,
        !lex_less_from(a, b, i),
        !lex_less_from(b, a, i),
        i <= a.len(),
        i <= b.len(),
        a.take(i) == b.take(i),
    ensures
        a == b,
    decreases a.len() - i,
{
    if i < a.len() && i < b.len() {
        assert(a.take(i + 1) =~= a.take(i).push(a[i]));
        assert(b.take(i + 1) =~= b.take(i).push(b[i]));
        lemma_lex_total(a, b, i + 1);
    } else {
        assert(a.take(i) =~= a);
        assert(b.take(i) =~= b);
    }
}

// ------------------------------------------------------------ pieces

/// Whether the characters `cs` are the string `lit`.
pub fn is(cs: &[char], lit: &str) -> (r: bool)
    ensures
        r == (cs@ == lit@),
{
    same(cs, chars_of(lit).as_slice())
}

/// Whether two strings are the same.
pub fn same_str(a: &str, b: &str) -> (r: bool)
    ensures
        r == (a@ == b@),
{
    same(chars_of(a).as_slice(), chars_of(b).as_slice())
}

/// The characters `cs[from..to]`.
pub fn piece(cs: &[char], from: usize, to: usize) -> (r: Vec<char>)
    requires
        from <= to <= cs@.len(),
    ensures
        r@ == cs@.subrange(from as int, to as int),
{
    let mut out: Vec<char> = Vec::new();
    let mut i: usize = from;
    while i < to
        invariant
            from <= i <= to <= cs@.len(),
            out@ =~= cs@.subrange(from as int, i as int),
        decreases to - i,
    {
        out.push(cs[i]);
        i += 1;
    }
    out
}

/// The character sequences of a list of pieces.
pub open spec fn pieces(v: Seq<Vec<char>>) -> Seq<Seq<char>> {
    v.map_values(|p: Vec<char>| p@)
}

/// `s` cut at every `sep`: one piece more than there are separators.
pub open spec fn split(s: Seq<char>, sep: char) -> Seq<Seq<char>>
    decreases s.len(),
{
    if s.len() == 0 {
        seq![Seq::<char>::empty()]
    } else {
        let before = split(s.drop_last(), sep);
        if s.last() == sep {
            before.push(Seq::empty())
        } else {
            before.update(before.len() - 1, before.last().push(s.last()))
        }
    }
}

/// A text has at least one piece.
pub proof fn lemma_split_nonempty(s: Seq<char>, sep: char)
    ensures
        split(s, sep).len() >= 1,
    decreases s.len(),
{
    if s.len() > 0 {
        lemma_split_nonempty(s.drop_last(), sep);
    }
}

/// No piece holds the separator.
pub proof fn lemma_split_pieces_hold_no_separator(s: Seq<char>, sep: char)
    ensures
        forall|k: int, i: int|
            0 <= k < split(s, sep).len() && 0 <= i < split(s, sep)[k].len() ==> #[trigger] split(
                s,
                sep,
            )[k][i] != sep,
    decreases s.len(),
{
    if s.len() > 0 {
        lemma_split_nonempty(s.drop_last(), sep);
        lemma_split_pieces_hold_no_separator(s.drop_last(), sep);
    }
}

/// The pieces put back together with the separator between them.
pub open spec fn join(parts: Seq<Seq<char>>, sep: char) -> Seq<char>
    decreases parts.len(),
{
    if parts.len() == 0 {
        seq![]
    } else if parts.len() == 1 {
        parts[0]
    } else {
        join(parts.drop_last(), sep).push(sep) + parts.last()
    }
}

/// Cutting and putting back together gives the text again.
pub proof fn lemma_join_split(s: Seq<char>, sep: char)
    ensures
        join(split(s, sep), sep) == s,
    decreases s.len(),
{
    if s.len() > 0 {
        let b = split(s.drop_last(), sep);
        lemma_split_nonempty(s.drop_last(), sep);
        lemma_join_split(s.drop_last(), sep);
        let a = split(s, sep);
        if s.last() == sep {
            assert(a.drop_last() =~= b);
            assert(join(a, sep) =~= s);
        } else {
            assert(a.drop_last() =~= b.drop_last());
            assert(join(a, sep) =~= join(b, sep).push(s.last()));
            assert(join(b, sep).push(s.last()) =~= s);
        }
    } else {
        assert(join(split(s, sep), sep) =~= s);
    }
}

/// The pieces of `cs` between the separators `sep`.
pub fn split_at_each(cs: &[char], sep: char) -> (r: Vec<Vec<char>>)
    ensures
        pieces(r@) == split(cs@, sep),
        r@.len() >= 1,
{
    let mut out: Vec<Vec<char>> = Vec::new();
    let mut start: usize = 0;
    let mut i: usize = 0;
    assert(cs@.take(0) =~= Seq::<char>::empty());
    assert(pieces(out@).push(cs@.subrange(0, 0)) =~= seq![Seq::<char>::empty()]);
    while i < cs.len()
        invariant
            start <= i <= cs@.len(),
            pieces(out@).push(cs@.subrange(start as int, i as int)) == split(cs@.take(i as int), sep),
        decreases cs@.len() - i,
    {
        let ghost now = pieces(out@).push(cs@.subrange(start as int, i as int));
        proof {
            assert(cs@.take(i + 1).drop_last() =~= cs@.take(i as int));
            assert(cs@.take(i + 1).last() == cs@[i as int]);
            assert(now.last() == cs@.subrange(start as int, i as int));
        }
        if cs[i] == sep {
            let ghost held = out@;
            out.push(piece(cs, start, i));
            start = i + 1;
            proof {
                assert(pieces(out@) =~= now);
                assert(cs@.subrange(i + 1, i + 1) =~= Seq::<char>::empty());
            }
        } else {
            assert(pieces(out@).push(cs@.subrange(start as int, i + 1)) =~= now.update(
                now.len() - 1,
                now.last().push(cs@[i as int]),
            )) by {
                assert(cs@.subrange(start as int, i + 1) =~= cs@.subrange(
                    start as int,
                    i as int,
                ).push(cs@[i as int]));
            }
        }
        i += 1;
    }
    let ghost now = pieces(out@).push(cs@.subrange(start as int, i as int));
    out.push(piece(cs, start, i));
    assert(pieces(out@) =~= now);
    assert(cs@.take(cs@.len() as int) =~= cs@);
    out
}

// ------------------------------------------------------------ lines

/// One newline-terminated line without the carriage return before its
/// newline.
pub open spec fn without_return(line: Seq<char>) -> Seq<char> {
    if line.len() > 0 && line.last() == '\r' {
        line.drop_last()
    } else {
        line
    }
}

/// The lines of a text: it is cut at newlines, a carriage return before a
/// newline goes with it, and what follows the last newline is a line only
/// where it is not empty.
pub open spec fn lines(s: Seq<char>) -> Seq<Seq<char>> {
    let parts = split(s, '\n');
    let whole = parts.drop_last().map_values(|l: Seq<char>| without_return(l));
    if parts.last().len() == 0 {
        whole
    } else {
        whole.push(parts.last())
    }
}

/// The lines of a text.
pub fn lines_of(cs: &[char]) -> (r: Vec<Vec<char>>)
    ensures
        pieces(r@) == lines(cs@),
{
    let mut parts: Vec<Vec<char>> = split_at_each(cs, '\n');
    let ghost all = split(cs@, '\n');
    let n: usize = parts.len();
    let mut out: Vec<Vec<char>> = Vec::new();
    let mut i: usize = 0;
    while i < n - 1
        invariant
            n == parts@.len() == all.len(),
            n >= 1,
            i <= n - 1,
            pieces(parts@) == all,
            pieces(out@) =~= all.drop_last().map_values(|l: Seq<char>| without_return(l)).take(
                i as int,
            ),
        decreases n - 1 - i,
    {
        let line: &Vec<char> = &parts[i];
        assert(all[i as int] == line@);
        let len: usize = line.len();
        let cut: Vec<char> = if len > 0 && line[len - 1] == '\r' {
            piece(line.as_slice(), 0, len - 1)
        } else {
            piece(line.as_slice(), 0, len)
        };
        assert(cut@ =~= without_return(line@));
        let ghost held = pieces(out@);
        let ghost added = cut@;
        out.push(cut);
        assert(pieces(out@) =~= held.push(added));
        i += 1;
    }
    let last: &Vec<char> = &parts[n - 1];
    assert(all.last() == last@);
    let ghost held = pieces(out@);
    assert(held =~= all.drop_last().map_values(|l: Seq<char>| without_return(l)));
    if last.len() > 0 {
        let copy: Vec<char> = piece(last.as_slice(), 0, last.len());
        assert(copy@ =~= last@);
        let ghost added = copy@;
        out.push(copy);
        assert(pieces(out@) =~= held.push(added));
    }
    out
}

// ------------------------------------------------------------ prefixes

/// `s` opens with `prefix`.
pub open spec fn opens_with(s: Seq<char>, prefix: Seq<char>) -> bool {
    prefix.len() <= s.len() && s.take(prefix.len() as int) == prefix
}

/// `s` ends with `suffix`.
pub open spec fn ends_with(s: Seq<char>, suffix: Seq<char>) -> bool {
    suffix.len() <= s.len() && s.skip(s.len() - suffix.len()) == suffix
}

/// Whether `cs` opens with `prefix`.
pub fn starts(cs: &[char], prefix: &[char]) -> (r: bool)
    ensures
        r == opens_with(cs@, prefix@),
{
    if prefix.len() > cs.len() {
        return false;
    }
    let head: Vec<char> = piece(cs, 0, prefix.len());
    assert(head@ =~= cs@.take(prefix@.len() as int));
    same(head.as_slice(), prefix)
}

/// Whether `cs` ends with `suffix`.
pub fn ends(cs: &[char], suffix: &[char]) -> (r: bool)
    ensures
        r == ends_with(cs@, suffix@),
{
    if suffix.len() > cs.len() {
        return false;
    }
    let tail: Vec<char> = piece(cs, cs.len() - suffix.len(), cs.len());
    assert(tail@ =~= cs@.skip(cs@.len() - suffix@.len()));
    same(tail.as_slice(), suffix)
}

/// The first position of `c` in `s` from `at` on.
pub open spec fn index_from(s: Seq<char>, c: char, at: int) -> Option<int>
    decreases s.len() - at,
{
    if at < 0 || at >= s.len() {
        None
    } else if s[at] == c {
        Some(at)
    } else {
        index_from(s, c, at + 1)
    }
}

/// The first position of `c` in `cs`.
pub fn index_of(cs: &[char], c: char) -> (r: Option<usize>)
    ensures
        match r {
            Some(i) => index_from(cs@, c, 0) == Some(i as int) && i < cs@.len(),
            None => index_from(cs@, c, 0) is None,
        },
{
    let mut i: usize = 0;
    while i < cs.len()
        invariant
            i <= cs@.len(),
            index_from(cs@, c, 0) == index_from(cs@, c, i as int),
        decreases cs@.len() - i,
    {
        if cs[i] == c {
            return Some(i);
        }
        i += 1;
    }
    None
}

/// `s` cut at its first `sep`: what stands before it and what stands after it.
pub open spec fn cut_once(s: Seq<char>, sep: char) -> Option<(Seq<char>, Seq<char>)> {
    match index_from(s, sep, 0) {
        Some(i) => Some((s.take(i), s.skip(i + 1))),
        None => None,
    }
}

/// `cs` cut at its first `sep`.
pub fn split_once(cs: &[char], sep: char) -> (r: Option<(Vec<char>, Vec<char>)>)
    ensures
        match r {
            Some(p) => cut_once(cs@, sep) == Some((p.0@, p.1@)),
            None => cut_once(cs@, sep) is None,
        },
{
    match index_of(cs, sep) {
        None => None,
        Some(i) => {
            let n: usize = cs.len();
            let a: Vec<char> = piece(cs, 0, i);
            let b: Vec<char> = piece(cs, i + 1, n);
            assert(a@ =~= cs@.take(i as int));
            assert(b@ =~= cs@.skip(i + 1));
            Some((a, b))
        },
    }
}

// ------------------------------------------------------------ whitespace

/// A character of Unicode's White_Space property.
pub open spec fn is_whitespace(c: char) -> bool {
    let u = c as u32;
    ||| 0x9 <= u <= 0xd
    ||| u == 0x20
    ||| u == 0x85
    ||| u == 0xa0
    ||| u == 0x1680
    ||| 0x2000 <= u <= 0x200a
    ||| u == 0x2028
    ||| u == 0x2029
    ||| u == 0x202f
    ||| u == 0x205f
    ||| u == 0x3000
}

/// Whether `c` is whitespace.
pub fn whitespace(c: char) -> (r: bool)
    ensures
        r == is_whitespace(c),
{
    let u: u32 = c as u32;
    0x9 <= u && u <= 0xd || u == 0x20 || u == 0x85 || u == 0xa0 || u == 0x1680 || 0x2000 <= u && u
        <= 0x200a || u == 0x2028 || u == 0x2029 || u == 0x202f || u == 0x205f || u == 0x3000
}

/// `s` without the whitespace at its start.
pub open spec fn trim_start(s: Seq<char>) -> Seq<char>
    decreases s.len(),
{
    if s.len() > 0 && is_whitespace(s[0]) {
        trim_start(s.drop_first())
    } else {
        s
    }
}

/// `s` without the whitespace at its end.
pub open spec fn trim_end(s: Seq<char>) -> Seq<char>
    decreases s.len(),
{
    if s.len() > 0 && is_whitespace(s.last()) {
        trim_end(s.drop_last())
    } else {
        s
    }
}

/// `s` without the whitespace around it.
pub open spec fn trimmed(s: Seq<char>) -> Seq<char> {
    trim_end(trim_start(s))
}

/// `cs` without the whitespace around it.
pub fn trim(cs: &[char]) -> (r: Vec<char>)
    ensures
        r@ == trimmed(cs@),
{
    let mut a: usize = 0;
    assert(cs@.skip(0) =~= cs@);
    while a < cs.len() && whitespace(cs[a])
        invariant
            a <= cs@.len(),
            trim_start(cs@) == trim_start(cs@.skip(a as int)),
        decreases cs@.len() - a,
    {
        assert(cs@.skip(a as int).drop_first() =~= cs@.skip(a + 1));
        a += 1;
    }
    let mut b: usize = cs.len();
    assert(cs@.skip(a as int) =~= cs@.subrange(a as int, b as int));
    while b > a && whitespace(cs[b - 1])
        invariant
            a <= b <= cs@.len(),
            trimmed(cs@) == trim_end(cs@.subrange(a as int, b as int)),
        decreases b,
    {
        assert(cs@.subrange(a as int, b as int).drop_last() =~= cs@.subrange(a as int, b - 1));
        b -= 1;
    }
    piece(cs, a, b)
}

/// The runs of characters between whitespace.
pub open spec fn words(s: Seq<char>) -> Seq<Seq<char>>
    decreases s.len(),
{
    if s.len() == 0 {
        seq![]
    } else {
        let before = words(s.drop_last());
        if is_whitespace(s.last()) {
            before
        } else if s.len() > 1 && !is_whitespace(s[s.len() - 2]) {
            before.update(before.len() - 1, before.last().push(s.last()))
        } else {
            before.push(seq![s.last()])
        }
    }
}

/// The words of `cs`.
pub fn words_of(cs: &[char]) -> (r: Vec<Vec<char>>)
    ensures
        pieces(r@) == words(cs@),
{
    let mut out: Vec<Vec<char>> = Vec::new();
    let mut i: usize = 0;
    let mut start: usize = 0;
    assert(cs@.take(0) =~= Seq::<char>::empty());
    assert(pieces(out@) =~= words(cs@.take(0)));
    while i < cs.len()
        invariant
            start <= i <= cs@.len(),
            i == 0 ==> start == 0,
            start < i ==> (forall|k: int| start <= k < i ==> !is_whitespace(#[trigger] cs@[k])),
            start == i && i > 0 ==> is_whitespace(cs@[i - 1]),
            words(cs@.take(i as int)) == if start < i {
                pieces(out@).push(cs@.subrange(start as int, i as int))
            } else {
                pieces(out@)
            },
        decreases cs@.len() - i,
    {
        let ghost held = pieces(out@);
        proof {
            assert(cs@.take(i + 1).drop_last() =~= cs@.take(i as int));
            assert(cs@.take(i + 1).last() == cs@[i as int]);
            if i > 0 {
                assert(cs@.take(i + 1)[i - 1] == cs@[i - 1]);
            }
        }
        if whitespace(cs[i]) {
            if start < i {
                let w: Vec<char> = piece(cs, start, i);
                let ghost added = w@;
                out.push(w);
                assert(pieces(out@) =~= held.push(added));
            }
            start = i + 1;
        } else {
            proof {
                if start < i {
                    assert(cs@.subrange(start as int, i + 1) =~= cs@.subrange(
                        start as int,
                        i as int,
                    ).push(cs@[i as int]));
                    let before = held.push(cs@.subrange(start as int, i as int));
                    assert(before.update(
                        before.len() - 1,
                        before.last().push(cs@[i as int]),
                    ) =~= held.push(cs@.subrange(start as int, i + 1)));
                } else {
                    assert(cs@.subrange(start as int, i + 1) =~= seq![cs@[i as int]]);
                }
            }
        }
        i += 1;
    }
    assert(cs@.take(cs@.len() as int) =~= cs@);
    if start < i {
        let ghost held = pieces(out@);
        let w: Vec<char> = piece(cs, start, i);
        let ghost added = w@;
        out.push(w);
        assert(pieces(out@) =~= held.push(added));
    }
    out
}

// ------------------------------------------------------------ numbers

/// A decimal digit.
pub open spec fn is_digit(c: char) -> bool {
    '0' <= c <= '9'
}

/// Every character is a decimal digit.
pub open spec fn all_digits(s: Seq<char>) -> bool {
    forall|i: int| 0 <= i < s.len() ==> is_digit(#[trigger] s[i])
}

/// The number that digits write in base ten.
pub open spec fn value(s: Seq<char>) -> nat
    decreases s.len(),
{
    if s.len() == 0 {
        0
    } else {
        value(s.drop_last()) * 10 + (s.last() as nat - '0' as nat) as nat
    }
}

/// `s` without a plus sign at its start.
pub open spec fn unsigned_part(s: Seq<char>) -> Seq<char> {
    if s.len() > 0 && s[0] == '+' {
        s.skip(1)
    } else {
        s
    }
}

/// The number that `s` writes, a plus sign allowed before its digits: `None`
/// where it writes none, or one above `max`.
pub open spec fn number(s: Seq<char>, max: nat) -> Option<nat> {
    let d = unsigned_part(s);
    if d.len() > 0 && all_digits(d) && value(d) <= max {
        Some(value(d))
    } else {
        None
    }
}

/// The integer that `s` writes, a sign allowed before its digits: `None` where
/// it writes none, or one outside 64 bits.
pub open spec fn integer(s: Seq<char>) -> Option<int> {
    if s.len() > 0 && s[0] == '-' {
        let d = s.skip(1);
        if d.len() > 0 && all_digits(d) && value(d) <= 0x8000_0000_0000_0000 {
            Some(-(value(d) as int))
        } else {
            None
        }
    } else {
        match number(s, 0x7fff_ffff_ffff_ffff) {
            Some(v) => Some(v as int),
            None => None,
        }
    }
}

proof fn lemma_value_grows(s: Seq<char>, i: int)
    requires
        0 <= i <= s.len(),
        all_digits(s),
    ensures
        value(s.take(i)) <= value(s),
    decreases s.len() - i,
{
    if i < s.len() {
        assert(s.take(i + 1).drop_last() =~= s.take(i));
        lemma_value_grows(s, i + 1);
    } else {
        assert(s.take(i) =~= s);
    }
}

/// The number the digits from `from` on write, where it fits 64 bits.
fn digits_u64(cs: &[char], from: usize) -> (r: Option<u64>)
    requires
        from <= cs@.len(),
    ensures
        match r {
            Some(v) => {
                &&& cs@.len() > from
                &&& all_digits(cs@.skip(from as int))
                &&& v == value(cs@.skip(from as int))
            },
            None => {
                ||| cs@.len() == from
                ||| !all_digits(cs@.skip(from as int))
                ||| value(cs@.skip(from as int)) > u64::MAX
            },
        },
{
    let ghost d = cs@.skip(from as int);
    if from == cs.len() {
        return None;
    }
    let mut v: u64 = 0;
    let mut i: usize = from;
    assert(d.take(0) =~= Seq::<char>::empty());
    while i < cs.len()
        invariant
            from <= i <= cs@.len(),
            d == cs@.skip(from as int),
            all_digits(d.take(i - from)),
            v == value(d.take(i - from)),
        decreases cs@.len() - i,
    {
        let c: char = cs[i];
        proof {
            assert(d[i - from] == c);
            assert(d.take(i - from + 1).drop_last() =~= d.take(i - from));
            assert(d.take(i - from + 1).last() == c);
        }
        if !('0' <= c && c <= '9') {
            assert(!is_digit(d[i - from]));
            return None;
        }
        let digit: u64 = c as u64 - '0' as u64;
        proof {
            assert(all_digits(d.take(i - from + 1))) by {
                assert forall|k: int| 0 <= k < d.take(i - from + 1).len() implies is_digit(
                    #[trigger] d.take(i - from + 1)[k],
                ) by {
                    if k < i - from {
                        assert(d.take(i - from)[k] == d.take(i - from + 1)[k]);
                    }
                }
            }
            if all_digits(d) {
                lemma_value_grows(d, i - from + 1);
            }
        }
        match v.checked_mul(10) {
            None => {
                return None;
            },
            Some(t) => match t.checked_add(digit) {
                None => {
                    return None;
                },
                Some(n) => {
                    v = n;
                },
            },
        }
        i += 1;
    }
    assert(d.take(d.len() as int) =~= d);
    Some(v)
}

/// The number `cs` writes, at most `max`.
pub fn parse_number(cs: &[char], max: u64) -> (r: Option<u64>)
    ensures
        match r {
            Some(v) => number(cs@, max as nat) == Some(v as nat),
            None => number(cs@, max as nat) is None,
        },
{
    let from: usize = if cs.len() > 0 && cs[0] == '+' {
        1
    } else {
        0
    };
    assert(cs@.skip(0) =~= cs@);
    assert(unsigned_part(cs@) == cs@.skip(from as int));
    match digits_u64(cs, from) {
        Some(v) => if v <= max {
            Some(v)
        } else {
            None
        },
        None => None,
    }
}

/// The 64-bit integer `cs` writes.
pub fn parse_integer(cs: &[char]) -> (r: Option<i64>)
    ensures
        match r {
            Some(v) => integer(cs@) == Some(v as int),
            None => integer(cs@) is None,
        },
{
    if cs.len() > 0 && cs[0] == '-' {
        match digits_u64(cs, 1) {
            Some(v) => if v < 0x8000_0000_0000_0000 {
                Some(-(v as i64))
            } else if v == 0x8000_0000_0000_0000 {
                Some(i64::MIN)
            } else {
                None
            },
            None => None,
        }
    } else {
        match parse_number(cs, 0x7fff_ffff_ffff_ffff) {
            Some(v) => Some(v as i64),
            None => None,
        }
    }
}

/// The character of a digit.
pub open spec fn digit_char(d: nat) -> char {
    ('0' as nat + d) as char
}

/// `n` written in decimal, without leading zeros.
pub open spec fn decimal(n: nat) -> Seq<char>
    decreases n,
{
    if n < 10 {
        seq![digit_char(n)]
    } else {
        decimal(n / 10).push(digit_char(n % 10))
    }
}

/// The character of a digit.
fn char_of_digit(d: u64) -> (r: char)
    requires
        d < 10,
    ensures
        r == digit_char(d as nat),
{
    let b: u8 = 48 + d as u8;
    b as char
}

/// Appends `n` in decimal to `out`.
pub fn push_decimal(out: &mut Vec<char>, n: u64)
    ensures
        final(out)@ == old(out)@ + decimal(n as nat),
    decreases n,
{
    if n >= 10 {
        push_decimal(out, n / 10);
    }
    out.push(char_of_digit(n % 10));
    assert(out@ =~= old(out)@ + decimal(n as nat));
}

/// Appends the characters of `s` to `out`.
pub fn push_str(out: &mut Vec<char>, s: &str)
    ensures
        final(out)@ == old(out)@ + s@,
{
    let cs: Vec<char> = chars_of(s);
    push_chars(out, cs.as_slice());
}

/// Appends the characters `cs` to `out`.
pub fn push_chars(out: &mut Vec<char>, cs: &[char])
    ensures
        final(out)@ == old(out)@ + cs@,
{
    let mut i: usize = 0;
    assert(out@ =~= old(out)@ + cs@.take(0));
    while i < cs.len()
        invariant
            i <= cs@.len(),
            out@ == old(out)@ + cs@.take(i as int),
        decreases cs@.len() - i,
    {
        out.push(cs[i]);
        assert(out@ =~= old(out)@ + cs@.take(i + 1));
        i += 1;
    }
    assert(cs@.take(cs@.len() as int) =~= cs@);
}

/// Reading a number back from its decimal text gives the number.
pub proof fn law_number_reads_decimal(n: nat, max: nat)
    requires
        n <= max,
    ensures
        number(decimal(n), max) == Some(n),
{
    lemma_decimal_value(n);
    assert(is_digit(decimal(n)[0]));
    assert(unsigned_part(decimal(n)) == decimal(n));
}

pub proof fn lemma_decimal_value(n: nat)
    ensures
        decimal(n).len() > 0,
        all_digits(decimal(n)),
        value(decimal(n)) == n,
    decreases n,
{
    if n < 10 {
        assert(decimal(n).drop_last() =~= Seq::<char>::empty());
        assert(value(decimal(n)) == n) by {
            reveal_with_fuel(value, 2);
        }
    } else {
        lemma_decimal_value(n / 10);
        assert(decimal(n).drop_last() =~= decimal(n / 10));
    }
}

/// A decimal text is made of digits, so it holds no point.
pub proof fn lemma_decimal_has_no_point(n: nat)
    ensures
        decimal(n).len() > 0,
        forall|i: int| 0 <= i < decimal(n).len() ==> #[trigger] decimal(n)[i] != '.',
{
    lemma_decimal_value(n);
    assert forall|i: int| 0 <= i < decimal(n).len() implies #[trigger] decimal(n)[i] != '.' by {
        assert(is_digit(decimal(n)[i]));
    }
}

/// Decimal texts of different numbers differ.
pub proof fn lemma_decimal_injective(a: nat, b: nat)
    requires
        decimal(a) == decimal(b),
    ensures
        a == b,
{
    lemma_decimal_value(a);
    lemma_decimal_value(b);
}

// ------------------------------------------------------------ lists of ids

/// The numbers that the pieces write, each at most `max`; `None` where one
/// writes none.
pub open spec fn numbers(parts: Seq<Seq<char>>, max: nat) -> Option<Seq<nat>>
    decreases parts.len(),
{
    if parts.len() == 0 {
        Some(seq![])
    } else {
        match (numbers(parts.drop_last(), max), number(parts.last(), max)) {
            (Some(before), Some(n)) => Some(before.push(n)),
            _ => None,
        }
    }
}

/// 32-bit ids as numbers.
pub open spec fn nats(v: Seq<u32>) -> Seq<nat> {
    v.map_values(|x: u32| x as nat)
}

/// The pieces without the whitespace around them.
pub open spec fn all_trimmed(parts: Seq<Seq<char>>) -> Seq<Seq<char>> {
    parts.map_values(|p: Seq<char>| trimmed(p))
}

/// The ids a comma-separated list writes, whitespace around an id allowed
/// where `trimming`.
pub open spec fn id_list(s: Seq<char>, trimming: bool) -> Option<Seq<nat>> {
    let parts = split(s, ',');
    numbers(
        if trimming {
            all_trimmed(parts)
        } else {
            parts
        },
        u32::MAX as nat,
    )
}

proof fn lemma_numbers_prefix(parts: Seq<Seq<char>>, max: nat, i: int)
    requires
        0 <= i <= parts.len(),
        numbers(parts.take(i), max) is None,
    ensures
        numbers(parts, max) is None,
    decreases parts.len() - i,
{
    if i < parts.len() {
        assert(parts.take(i + 1).drop_last() =~= parts.take(i));
        lemma_numbers_prefix(parts, max, i + 1);
    } else {
        assert(parts.take(i) =~= parts);
    }
}

/// The ids of a comma-separated list.
pub fn parse_ids(cs: &[char], trimming: bool) -> (r: Option<Vec<u32>>)
    ensures
        match r {
            Some(v) => id_list(cs@, trimming) == Some(nats(v@)),
            None => id_list(cs@, trimming) is None,
        },
{
    let parts: Vec<Vec<char>> = split_at_each(cs, ',');
    let ghost all = if trimming {
        all_trimmed(split(cs@, ','))
    } else {
        split(cs@, ',')
    };
    let mut out: Vec<u32> = Vec::new();
    let mut i: usize = 0;
    assert(all.take(0) =~= Seq::<Seq<char>>::empty());
    assert(nats(out@) =~= Seq::<nat>::empty());
    while i < parts.len()
        invariant
            i <= parts@.len() == all.len(),
            pieces(parts@) == split(cs@, ','),
            all == (if trimming {
                all_trimmed(split(cs@, ','))
            } else {
                split(cs@, ',')
            }),
            numbers(all.take(i as int), u32::MAX as nat) == Some(nats(out@)),
        decreases parts@.len() - i,
    {
        assert(split(cs@, ',')[i as int] == parts@[i as int]@);
        let id: Option<u64> = if trimming {
            parse_number(trim(parts[i].as_slice()).as_slice(), u32::MAX as u64)
        } else {
            parse_number(parts[i].as_slice(), u32::MAX as u64)
        };
        proof {
            assert(all.take(i + 1).drop_last() =~= all.take(i as int));
            assert(all.take(i + 1).last() == all[i as int]);
        }
        match id {
            None => {
                proof {
                    lemma_numbers_prefix(all, u32::MAX as nat, i + 1);
                }
                return None;
            },
            Some(n) => {
                let ghost held = out@;
                out.push(n as u32);
                assert(nats(out@) =~= nats(held).push(n as nat));
            },
        }
        i += 1;
    }
    assert(all.take(all.len() as int) =~= all);
    Some(out)
}

// ------------------------------------------------------------ decimal fractions

/// The lower-case letter of an ASCII letter.
pub open spec fn lower(c: char) -> char {
    if 'A' <= c <= 'Z' {
        (c as u32 + 32) as char
    } else {
        c
    }
}

/// `s` in lower case.
pub open spec fn lowered(s: Seq<char>) -> Seq<char> {
    s.map_values(|c: char| lower(c))
}

/// `s` without a sign at its start.
pub open spec fn without_sign(s: Seq<char>) -> Seq<char> {
    if s.len() > 0 && (s[0] == '+' || s[0] == '-') {
        s.skip(1)
    } else {
        s
    }
}

/// Digits with at most one point among them, at least one digit.
pub open spec fn is_mantissa(s: Seq<char>) -> bool {
    match index_from(s, '.', 0) {
        None => s.len() > 0 && all_digits(s),
        Some(i) => s.len() > 1 && all_digits(s.take(i)) && all_digits(s.skip(i + 1)),
    }
}

/// A mantissa and, behind an `e`, an exponent.
pub open spec fn is_scaled(s: Seq<char>) -> bool {
    match index_from(s, 'e', 0) {
        None => is_mantissa(s),
        Some(i) => {
            let e = without_sign(s.skip(i + 1));
            is_mantissa(s.take(i)) && e.len() > 0 && all_digits(e)
        },
    }
}

/// The texts that write a floating-point number: a sign or none, then `inf`,
/// `infinity`, `nan` or a decimal number with an optional exponent, letters in
/// either case.
pub open spec fn is_float_text(s: Seq<char>) -> bool {
    let t = lowered(without_sign(s));
    t == "inf"@ || t == "infinity"@ || t == "nan"@ || is_scaled(t)
}

/// Whether every character from `from` to `to` is a digit.
fn digits_between(cs: &[char], from: usize, to: usize) -> (r: bool)
    requires
        from <= to <= cs@.len(),
    ensures
        r == all_digits(cs@.subrange(from as int, to as int)),
{
    let ghost s = cs@.subrange(from as int, to as int);
    let mut i: usize = from;
    while i < to
        invariant
            from <= i <= to <= cs@.len(),
            s == cs@.subrange(from as int, to as int),
            forall|k: int| 0 <= k < i - from ==> is_digit(#[trigger] s[k]),
        decreases to - i,
    {
        assert(s[i - from] == cs@[i as int]);
        if !('0' <= cs[i] && cs[i] <= '9') {
            return false;
        }
        i += 1;
    }
    true
}

/// Whether `cs` is a mantissa.
fn mantissa(cs: &[char]) -> (r: bool)
    ensures
        r == is_mantissa(cs@),
{
    let n: usize = cs.len();
    assert(cs@.subrange(0, n as int) =~= cs@);
    match index_of(cs, '.') {
        None => n > 0 && digits_between(cs, 0, n),
        Some(i) => {
            assert(cs@.subrange(0, i as int) =~= cs@.take(i as int));
            assert(cs@.subrange(i + 1, n as int) =~= cs@.skip(i + 1));
            n > 1 && digits_between(cs, 0, i) && digits_between(cs, i + 1, n)
        },
    }
}

/// `cs` without a sign at its start.
fn drop_sign(cs: &[char]) -> (r: Vec<char>)
    ensures
        r@ == without_sign(cs@),
{
    let n: usize = cs.len();
    if n > 0 && (cs[0] == '+' || cs[0] == '-') {
        assert(cs@.subrange(1, n as int) =~= cs@.skip(1));
        piece(cs, 1, n)
    } else {
        assert(cs@.subrange(0, n as int) =~= cs@);
        piece(cs, 0, n)
    }
}

/// The lower-case letter of an ASCII letter.
fn lower_char(c: char) -> (r: char)
    ensures
        r == lower(c),
{
    if 'A' <= c && c <= 'Z' {
        let b: u8 = c as u8 + 32;
        b as char
    } else {
        c
    }
}

/// Whether `cs` writes a floating-point number.
pub fn float_text(cs: &[char]) -> (r: bool)
    ensures
        r == is_float_text(cs@),
{
    let bare: Vec<char> = drop_sign(cs);
    let mut t: Vec<char> = Vec::new();
    let mut i: usize = 0;
    while i < bare.len()
        invariant
            i <= bare@.len(),
            t@ =~= lowered(bare@.take(i as int)),
        decreases bare@.len() - i,
    {
        t.push(lower_char(bare[i]));
        i += 1;
    }
    assert(bare@.take(bare@.len() as int) =~= bare@);
    assert(t@ == lowered(without_sign(cs@)));
    if is(t.as_slice(), "inf") || is(t.as_slice(), "infinity") || is(t.as_slice(), "nan") {
        return true;
    }
    let n: usize = t.len();
    match index_of(t.as_slice(), 'e') {
        None => mantissa(t.as_slice()),
        Some(k) => {
            let head: Vec<char> = piece(t.as_slice(), 0, k);
            let tail: Vec<char> = piece(t.as_slice(), k + 1, n);
            assert(head@ =~= t@.take(k as int));
            assert(tail@ =~= t@.skip(k + 1));
            let e: Vec<char> = drop_sign(tail.as_slice());
            assert(e@.subrange(0, e@.len() as int) =~= e@);
            mantissa(head.as_slice()) && e.len() > 0 && digits_between(e.as_slice(), 0, e.len())
        },
    }
}

// ------------------------------------------------------------ what reading gives back

/// A text without the separator is one piece, and a separator between two texts
/// cuts them apart: the pieces of the one, then those of the other.
pub proof fn law_a_separator_cuts(a: Seq<char>, sep: char, b: Seq<char>)
    ensures
        split(a + seq![sep] + b, sep) == split(a, sep) + split(b, sep),
        !a.contains(sep) ==> split(a, sep) == seq![a],
    decreases b.len(),
{
    lemma_split_nonempty(a, sep);
    lemma_split_nonempty(b, sep);
    if !a.contains(sep) {
        lemma_one_piece(a, sep);
    }
    let s = a + seq![sep] + b;
    if b.len() == 0 {
        assert(s.drop_last() =~= a);
        assert(split(s, sep) =~= split(a, sep) + split(b, sep));
    } else {
        law_a_separator_cuts(a, sep, b.drop_last());
        lemma_split_nonempty(b.drop_last(), sep);
        assert(s.drop_last() =~= a + seq![sep] + b.drop_last());
        assert(s.last() == b.last());
        assert(split(s, sep) =~= split(a, sep) + split(b, sep));
    }
}

proof fn lemma_one_piece(a: Seq<char>, sep: char)
    requires
        !a.contains(sep),
    ensures
        split(a, sep) == seq![a],
    decreases a.len(),
{
    if a.len() > 0 {
        assert forall|i: int| 0 <= i < a.drop_last().len() implies a.drop_last()[i] != sep by {
            assert(a[i] != sep);
        }
        lemma_one_piece(a.drop_last(), sep);
        assert(a[a.len() - 1] != sep);
        assert(a.drop_last().push(a.last()) =~= a);
        assert(split(a, sep) =~= seq![a]);
    } else {
        assert(a =~= Seq::<char>::empty());
        assert(split(a, sep) =~= seq![a]);
    }
}

/// A text without a newline is the one line it is, nothing where it is empty; a
/// line that a newline ends comes before the lines of the rest, without the
/// carriage return before that newline.
pub proof fn law_a_newline_ends_a_line(line: Seq<char>, rest: Seq<char>)
    requires
        !line.contains('\n'),
    ensures
        lines(Seq::empty()) == Seq::<Seq<char>>::empty(),
        line.len() > 0 ==> lines(line) == seq![line],
        line.len() > 0 && line.last() == '\r' ==> lines(line + seq!['\n'] + rest) == seq![
            line.drop_last(),
        ] + lines(rest),
        line.len() == 0 || line.last() != '\r' ==> lines(line + seq!['\n'] + rest) == seq![line]
            + lines(rest),
{
    let none = Seq::<char>::empty();
    law_a_separator_cuts(none, '\n', none);
    law_a_separator_cuts(line, '\n', rest);
    lemma_split_nonempty(rest, '\n');
    assert(!none.contains('\n'));
    assert(lines(none) =~= Seq::<Seq<char>>::empty());
    assert(split(line, '\n') == seq![line]);
    if line.len() > 0 {
        assert(lines(line) =~= seq![line]);
    }
    let s = line + seq!['\n'] + rest;
    let p = split(rest, '\n');
    assert(split(s, '\n') =~= seq![line] + p);
    assert(split(s, '\n').last() == p.last());
    assert(split(s, '\n').drop_last() =~= seq![line] + p.drop_last());
    assert(lines(s) =~= seq![without_return(line)] + lines(rest));
}

/// A word is a run of characters that are no blank: blanks before it add nothing,
/// a blank behind it ends it, and alone it is the one word.
pub proof fn law_a_blank_ends_a_word(word: Seq<char>, blank: char, rest: Seq<char>)
    requires
        blank == ' ' || blank == '\t' || blank == '\n' || blank == '\r',
        word.len() > 0,
        forall|i: int| 0 <= i < word.len() ==> !is_whitespace(#[trigger] word[i]),
    ensures
        words(word) == seq![word],
        words(seq![blank] + rest) == words(rest),
        words(word + seq![blank] + rest) == seq![word] + words(rest),
    decreases rest.len(),
{
    lemma_one_word(word);
    let (s, t) = (seq![blank] + rest, word + seq![blank] + rest);
    if rest.len() == 0 {
        assert(s.drop_last() =~= rest);
        assert(words(s) =~= words(rest));
        assert(t.drop_last() =~= word);
        assert(words(t) =~= seq![word] + words(rest));
    } else {
        let r = rest.drop_last();
        law_a_blank_ends_a_word(word, blank, r);
        assert(s.drop_last() =~= seq![blank] + r);
        assert(t.drop_last() =~= word + seq![blank] + r);
        if rest.len() > 1 {
            assert(s[s.len() - 2] == rest[rest.len() - 2]);
            assert(t[t.len() - 2] == rest[rest.len() - 2]);
            if !is_whitespace(rest[rest.len() - 2]) {
                lemma_words_nonempty(r);
            }
        } else {
            assert(s[s.len() - 2] == blank);
            assert(t[t.len() - 2] == blank);
        }
        assert(words(s) =~= words(rest));
        assert(words(t) =~= seq![word] + words(rest));
    }
}

proof fn lemma_words_nonempty(s: Seq<char>)
    requires
        s.len() > 0,
        !is_whitespace(s.last()),
    ensures
        words(s).len() > 0,
    decreases s.len(),
{
    if s.len() > 1 && !is_whitespace(s[s.len() - 2]) {
        lemma_words_nonempty(s.drop_last());
    }
}

proof fn lemma_one_word(word: Seq<char>)
    requires
        word.len() > 0,
        forall|i: int| 0 <= i < word.len() ==> !is_whitespace(#[trigger] word[i]),
    ensures
        words(word) == seq![word],
    decreases word.len(),
{
    if word.len() > 1 {
        assert(!is_whitespace(word[word.len() - 2]));
        assert forall|i: int| 0 <= i < word.drop_last().len() implies !is_whitespace(
            #[trigger] word.drop_last()[i],
        ) by {
            assert(!is_whitespace(word[i]));
        }
        lemma_one_word(word.drop_last());
        assert(!is_whitespace(word[word.len() - 1]));
        assert(word.drop_last().push(word.last()) =~= word);
        assert(words(word) =~= seq![word]);
    } else {
        assert(!is_whitespace(word[0]));
        assert(word.drop_last() =~= Seq::<char>::empty());
        assert(seq![word.last()] =~= word);
        reveal_with_fuel(words, 2);
        assert(words(word) =~= seq![word]);
    }
}

/// The blanks of ASCII are whitespace, and a printing character of it is not.
pub proof fn law_ascii_whitespace(c: char)
    requires
        c as u32 <= 0x7f,
    ensures
        is_whitespace(c) == (c == ' ' || c == '\t' || c == '\n' || c == '\r' || c == '\u{b}' || c
            == '\u{c}'),
{
}

/// Trimming takes the blanks at both ends and nothing else.
pub proof fn law_trimming_takes_the_ends(a: Seq<char>, s: Seq<char>, b: Seq<char>)
    requires
        forall|i: int| 0 <= i < a.len() ==> is_whitespace(#[trigger] a[i]),
        forall|i: int| 0 <= i < b.len() ==> is_whitespace(#[trigger] b[i]),
        s.len() > 0 ==> !is_whitespace(s[0]) && !is_whitespace(s.last()),
    ensures
        trimmed(a + s + b) == s,
    decreases a.len() + b.len(),
{
    let t = a + s + b;
    if s.len() == 0 {
        lemma_all_blank(t);
        assert(trimmed(t) =~= s);
    } else if a.len() > 0 {
        assert(t[0] == a[0]);
        assert(t.drop_first() =~= a.drop_first() + s + b);
        assert forall|i: int| 0 <= i < a.drop_first().len() implies is_whitespace(
            #[trigger] a.drop_first()[i],
        ) by {
            assert(is_whitespace(a[i + 1]));
        }
        law_trimming_takes_the_ends(a.drop_first(), s, b);
    } else {
        assert(t =~= s + b);
        assert(t[0] == s[0]);
        lemma_trim_end(s, b);
    }
}

proof fn lemma_trim_end(s: Seq<char>, b: Seq<char>)
    requires
        s.len() > 0,
        !is_whitespace(s.last()),
        forall|i: int| 0 <= i < b.len() ==> is_whitespace(#[trigger] b[i]),
    ensures
        trim_end(s + b) == s,
    decreases b.len(),
{
    if b.len() > 0 {
        assert(is_whitespace(b[b.len() - 1]));
        assert((s + b).drop_last() =~= s + b.drop_last());
        assert forall|i: int| 0 <= i < b.drop_last().len() implies is_whitespace(
            #[trigger] b.drop_last()[i],
        ) by {
            assert(is_whitespace(b[i]));
        }
        lemma_trim_end(s, b.drop_last());
    } else {
        assert(s + b =~= s);
    }
}

proof fn lemma_all_blank(t: Seq<char>)
    requires
        forall|i: int| 0 <= i < t.len() ==> is_whitespace(#[trigger] t[i]),
    ensures
        trim_start(t).len() == 0,
    decreases t.len(),
{
    if t.len() > 0 {
        assert(is_whitespace(t[0]));
        assert forall|i: int| 0 <= i < t.drop_first().len() implies is_whitespace(
            #[trigger] t.drop_first()[i],
        ) by {
            assert(is_whitespace(t[i + 1]));
        }
        lemma_all_blank(t.drop_first());
    }
}

/// Digits are read in base ten: a digit behind a number is ten of it and the
/// digit, the ten digits are 0 to 9, and zeros before a number change nothing.
pub proof fn law_digits_are_read_in_base_ten(s: Seq<char>, d: char)
    requires
        '0' <= d <= '9',
    ensures
        value(s.push(d)) == 10 * value(s) + (d as int - 48),
        value(seq!['0'] + s) == value(s),
        value(seq!['7']) == 7,
    decreases s.len(),
{
    assert(s.push(d).drop_last() =~= s);
    assert(seq!['7'].drop_last() =~= Seq::<char>::empty());
    reveal_with_fuel(value, 2);
    lemma_leading_zero(s);
}

proof fn lemma_leading_zero(s: Seq<char>)
    ensures
        value(seq!['0'] + s) == value(s),
    decreases s.len(),
{
    let t = seq!['0'] + s;
    if s.len() > 0 {
        assert(t.drop_last() =~= seq!['0'] + s.drop_last());
        assert(t.last() == s.last());
        lemma_leading_zero(s.drop_last());
    } else {
        assert(t.drop_last() =~= Seq::<char>::empty());
        assert(t =~= seq!['0']);
        reveal_with_fuel(value, 2);
    }
}

/// What a number may look like: digits, a plus sign before them allowed, no more
/// than the greatest wanted. Anything else, and an empty text, is none.
pub proof fn law_a_number_is_its_digits(s: Seq<char>, n: nat, max: nat)
    ensures
        number(decimal(n), max) == (if n <= max {
            Some(n)
        } else {
            None
        }),
        number(seq!['+'] + decimal(n), max) == number(decimal(n), max),
        number(Seq::empty(), max) is None,
        number(seq!['+'], max) is None,
        (exists|i: int| 1 <= i < s.len() && !('0' <= s[i] && s[i] <= '9')) ==> number(s, max)
            is None,
        s.len() > 0 && s[0] != '+' && !('0' <= s[0] && s[0] <= '9') ==> number(s, max) is None,
        number(s, max) matches Some(v) ==> v <= max,
{
    lemma_decimal_value(n);
    assert(is_digit(decimal(n)[0]));
    assert(unsigned_part(decimal(n)) == decimal(n));
    assert((seq!['+'] + decimal(n)).skip(1) =~= decimal(n));
    assert(seq!['+'].skip(1) =~= Seq::<char>::empty());
    if exists|i: int| 1 <= i < s.len() && !('0' <= s[i] && s[i] <= '9') {
        let i = choose|i: int| 1 <= i < s.len() && !('0' <= s[i] && s[i] <= '9');
        if s[0] == '+' {
            assert(s.skip(1)[i - 1] == s[i]);
            assert(!is_digit(s.skip(1)[i - 1]));
        } else {
            assert(!is_digit(s[i]));
        }
    }
    if s.len() > 0 && s[0] != '+' && !('0' <= s[0] && s[0] <= '9') {
        assert(!is_digit(s[0]));
    }
}

/// An integer of 64 bits reads back from its decimal text, a minus sign before a
/// negative one.
pub proof fn law_an_integer_reads_back(n: int)
    requires
        -0x8000_0000_0000_0000 <= n <= 0x7fff_ffff_ffff_ffff,
    ensures
        n >= 0 ==> integer(decimal(n as nat)) == Some(n),
        n <= 0 ==> integer(seq!['-'] + decimal((-n) as nat)) == Some(n),
{
    if n >= 0 {
        lemma_decimal_value(n as nat);
        assert(is_digit(decimal(n as nat)[0]));
        law_number_reads_decimal(n as nat, 0x7fff_ffff_ffff_ffff);
    }
    if n <= 0 {
        lemma_decimal_value((-n) as nat);
        assert((seq!['-'] + decimal((-n) as nat)).skip(1) =~= decimal((-n) as nat));
    }
}

/// Dictionary order: the shorter of two texts that agree comes first, and else
/// the one with the smaller character where they first differ.
pub proof fn law_dictionary_order(a: Seq<char>, b: Seq<char>, i: int)
    requires
        0 <= i <= a.len(),
        i <= b.len(),
        forall|k: int| 0 <= k < i ==> a[k] == b[k],
    ensures
        i == a.len() && i < b.len() ==> lex_less(a, b) && !lex_less(b, a),
        i == a.len() && i == b.len() ==> !lex_less(a, b),
        i < a.len() && i < b.len() && a[i] < b[i] ==> lex_less(a, b) && !lex_less(b, a),
{
    lemma_lex_skips(a, b, 0, i);
    lemma_lex_skips(b, a, 0, i);
}

proof fn lemma_lex_skips(a: Seq<char>, b: Seq<char>, at: int, i: int)
    requires
        0 <= at <= i <= a.len(),
        i <= b.len(),
        forall|k: int| at <= k < i ==> a[k] == b[k],
    ensures
        lex_less_from(a, b, at) == lex_less_from(a, b, i),
    decreases i - at,
{
    if at < i {
        lemma_lex_skips(a, b, at + 1, i);
    }
}

/// A list of ids reads back from its decimal texts with a comma between each two.
pub proof fn law_an_id_list_reads_back(before: Seq<char>, ids: Seq<nat>, id: nat, trimming: bool)
    requires
        id <= u32::MAX,
    ensures
        id_list(decimal(id), trimming) == Some(seq![id]),
        id_list(before, trimming) == Some(ids) ==> id_list(
            before + seq![','] + decimal(id),
            trimming,
        ) == Some(ids.push(id)),
        id_list(before, trimming) is None ==> id_list(
            before + seq![','] + decimal(id),
            trimming,
        ) is None,
        id_list(Seq::empty(), trimming) is None,
{
    let d = decimal(id);
    lemma_decimal_value(id);
    assert(!d.contains(',')) by {
        assert forall|i: int| 0 <= i < d.len() implies d[i] != ',' by {
            assert(is_digit(d[i]));
        }
    }
    law_number_reads_decimal(id, u32::MAX as nat);
    let none = Seq::<char>::empty();
    assert(is_digit(d[0]) && is_digit(d[d.len() - 1]));
    law_trimming_takes_the_ends(none, d, none);
    assert(none + d + none =~= d);
    law_a_separator_cuts(d, ',', none);
    law_a_separator_cuts(before, ',', d);
    let s = before + seq![','] + d;
    let (p, q) = (split(before, ','), split(s, ','));
    assert(split(d, ',') == seq![d]);
    assert(q =~= p.push(d));
    assert(all_trimmed(q) =~= all_trimmed(p).push(d));
    assert(q.drop_last() =~= p);
    assert(all_trimmed(q).drop_last() =~= all_trimmed(p));
    assert(all_trimmed(seq![d]) =~= seq![d]);
    assert(seq![d].drop_last() =~= Seq::<Seq<char>>::empty());
    reveal_with_fuel(numbers, 2);
    assert(numbers(seq![d], u32::MAX as nat) =~= Some(seq![id]));
    law_a_separator_cuts(none, ',', none);
    assert(!none.contains(','));
    assert(split(none, ',') == seq![none]);
    assert(trimmed(none) =~= none);
    assert(all_trimmed(seq![none]) =~= seq![none]);
    assert(seq![none].last() == none);
}

/// The first place of a character is where it stands and none of it stands before.
pub proof fn lemma_index_is(s: Seq<char>, c: char, at: int, i: int)
    requires
        0 <= at <= i < s.len(),
        s[i] == c,
        forall|k: int| at <= k < i ==> s[k] != c,
    ensures
        index_from(s, c, at) == Some(i),
    decreases i - at,
{
    if at < i {
        lemma_index_is(s, c, at + 1, i);
    }
}


// ------------------------------------------------------------ floating-point texts

/// A number's text may open with a sign, have a point anywhere among its digits and
/// an exponent of either case and sign behind them; the words for infinity and no
/// number are numbers' texts too.
pub proof fn law_a_decimal_is_a_float_text(a: Seq<char>, b: Seq<char>, e: Seq<char>)
    requires
        all_digits(a),
        all_digits(b),
        all_digits(e),
        a.len() > 0,
        e.len() > 0,
    ensures
        is_float_text(a),
        is_float_text(seq!['-'] + a),
        is_float_text(seq!['+'] + a),
        is_float_text(a + seq!['.'] + b),
        is_float_text(b + seq!['.'] + a),
        is_float_text(a + seq!['.'] + b + seq!['e'] + e),
        is_float_text(a + seq!['.'] + b + seq!['E', '-'] + e),
        is_float_text("inf"@),
        is_float_text("NaN"@),
        !is_float_text(seq![]),
        !is_float_text(seq!['.']),
        !is_float_text(a + seq!['e']),
{
    let (p, q) = (a + seq!['.'] + b, b + seq!['.'] + a);
    let (x, y) = (p + seq!['e'] + e, p + seq!['E', '-'] + e);
    lemma_plain_float(a);
    lemma_signed_float('-', a);
    lemma_signed_float('+', a);
    lemma_pointed_float(a, b);
    lemma_pointed_float(b, a);
    lemma_scaled_float(a, b, e, false);
    lemma_scaled_float(a, b, e, true);
    lemma_float_words();
    lemma_no_exponent(a);
    assert(p =~= a + seq!['.'] + b);
    assert(q =~= b + seq!['.'] + a);
    assert(x =~= a + seq!['.'] + b + seq!['e'] + e);
    assert(y =~= a + seq!['.'] + b + seq!['E', '-'] + e);
}

proof fn lemma_float_words()
    ensures
        is_float_text("inf"@),
        is_float_text("NaN"@),
        !is_float_text(seq![]),
        !is_float_text(seq!['.']),
{
    reveal_strlit("inf");
    reveal_strlit("NaN");
    reveal_strlit("nan");
    reveal_strlit("infinity");
    let n = "NaN"@;
    assert(lowered(without_sign(n)) =~= "nan"@);
    assert(lowered(without_sign("inf"@)) =~= "inf"@);
    let none = Seq::<char>::empty();
    assert(lowered(without_sign(none)) =~= none);
    assert(index_from(none, 'e', 0) is None);
    assert(index_from(none, '.', 0) is None);
    assert("inf"@.len() == 3 && "nan"@.len() == 3 && "infinity"@.len() == 8);
    let dot = seq!['.'];
    assert(lowered(without_sign(dot)) =~= dot);
    lemma_no_index_of(dot, 'e', 0);
    lemma_index_is(dot, '.', 0, 0);
    assert(dot.len() == 1);
}

proof fn lemma_no_index_of(s: Seq<char>, c: char, at: int)
    requires
        0 <= at,
        forall|i: int| 0 <= i < s.len() ==> s[i] != c,
    ensures
        index_from(s, c, at) is None,
    decreases s.len() - at,
{
    if at < s.len() {
        lemma_no_index_of(s, c, at + 1);
    }
}

proof fn lemma_plain_float(a: Seq<char>)
    requires
        all_digits(a),
        a.len() > 0,
    ensures
        is_float_text(a),
        is_mantissa(a),
        lowered(a) == a,
{
    assert(is_digit(a[0]));
    assert(lowered(a) =~= a) by {
        assert forall|i: int| 0 <= i < a.len() implies lowered(a)[i] == a[i] by {
            assert(is_digit(a[i]));
        }
    }
    assert forall|i: int| 0 <= i < a.len() implies a[i] != 'e' && a[i] != '.' by {
        assert(is_digit(a[i]));
    }
    lemma_no_index_of(a, 'e', 0);
    lemma_no_index_of(a, '.', 0);
}

proof fn lemma_signed_float(sign: char, a: Seq<char>)
    requires
        sign == '-' || sign == '+',
        all_digits(a),
        a.len() > 0,
    ensures
        is_float_text(seq![sign] + a),
{
    lemma_plain_float(a);
    assert((seq![sign] + a).skip(1) =~= a);
    assert(is_digit(a[0]));
    assert(without_sign(a) == a);
    assert(is_scaled(a)) by {
        assert forall|i: int| 0 <= i < a.len() implies a[i] != 'e' by {
            assert(is_digit(a[i]));
        }
        lemma_no_index_of(a, 'e', 0);
    }
}

proof fn lemma_pointed(a: Seq<char>, b: Seq<char>)
    requires
        all_digits(a),
        all_digits(b),
        a.len() + b.len() > 0,
    ensures
        is_mantissa(a + seq!['.'] + b),
        forall|i: int|
            0 <= i < (a + seq!['.'] + b).len() ==> is_digit(#[trigger] (a + seq!['.'] + b)[i]) || (a
                + seq!['.'] + b)[i] == '.',
{
    let p = a + seq!['.'] + b;
    assert forall|i: int| 0 <= i < p.len() implies is_digit(#[trigger] p[i]) || p[i] == '.' by {
        if i < a.len() {
            assert(p[i] == a[i]);
            assert(is_digit(a[i]));
        } else if i > a.len() {
            assert(p[i] == b[i - a.len() - 1]);
            assert(is_digit(b[i - a.len() - 1]));
        }
    }
    assert forall|k: int| 0 <= k < a.len() implies p[k] != '.' by {
        assert(p[k] == a[k]);
        assert(is_digit(a[k]));
    }
    lemma_index_is(p, '.', 0, a.len() as int);
    assert(p.take(a.len() as int) =~= a);
    assert(p.skip(a.len() as int + 1) =~= b);
}

proof fn lemma_pointed_float(a: Seq<char>, b: Seq<char>)
    requires
        all_digits(a),
        all_digits(b),
        a.len() + b.len() > 0,
    ensures
        is_float_text(a + seq!['.'] + b),
{
    let p = a + seq!['.'] + b;
    lemma_pointed(a, b);
    assert(is_digit(p[0]) || p[0] == '.');
    assert(lowered(p) =~= p) by {
        assert forall|i: int| 0 <= i < p.len() implies lowered(p)[i] == p[i] by {
            assert(is_digit(p[i]) || p[i] == '.');
        }
    }
    assert forall|i: int| 0 <= i < p.len() implies p[i] != 'e' by {
        assert(is_digit(p[i]) || p[i] == '.');
    }
    lemma_no_index_of(p, 'e', 0);
}

proof fn lemma_scaled_float(a: Seq<char>, b: Seq<char>, e: Seq<char>, down: bool)
    requires
        all_digits(a),
        all_digits(b),
        all_digits(e),
        a.len() > 0,
        e.len() > 0,
    ensures
        is_float_text(
            a + seq!['.'] + b + (if down {
                seq!['E', '-']
            } else {
                seq!['e']
            }) + e,
        ),
{
    let p = a + seq!['.'] + b;
    let mark = if down {
        seq!['E', '-']
    } else {
        seq!['e']
    };
    let low = if down {
        seq!['e', '-']
    } else {
        seq!['e']
    };
    let s = p + mark + e;
    let t = p + low + e;
    lemma_pointed(a, b);
    assert(is_digit(p[0]) || p[0] == '.');
    assert(s[0] == p[0]);
    assert(without_sign(s) == s);
    assert(lowered(s) =~= t) by {
        assert forall|i: int| 0 <= i < s.len() implies lowered(s)[i] == t[i] by {
            if i < p.len() {
                assert(s[i] == p[i] && t[i] == p[i]);
                assert(is_digit(p[i]) || p[i] == '.');
            } else if i < p.len() + mark.len() {
                assert(s[i] == mark[i - p.len()] && t[i] == low[i - p.len()]);
            } else {
                let k = i - p.len() - mark.len();
                assert(s[i] == e[k] && t[i] == e[k]);
                assert(is_digit(e[k]));
            }
        }
    }
    assert forall|k: int| 0 <= k < p.len() implies t[k] != 'e' by {
        assert(t[k] == p[k]);
        assert(is_digit(p[k]) || p[k] == '.');
    }
    assert(t[p.len() as int] == 'e');
    lemma_index_is(t, 'e', 0, p.len() as int);
    assert(t.take(p.len() as int) =~= p);
    let tail = t.skip(p.len() as int + 1);
    assert(is_digit(e[0]));
    if down {
        assert(tail =~= seq!['-'] + e);
        assert(tail.skip(1) =~= e);
    } else {
        assert(tail =~= e);
    }
    assert(without_sign(tail) == e);
}

proof fn lemma_no_exponent(a: Seq<char>)
    requires
        all_digits(a),
        a.len() > 0,
    ensures
        !is_float_text(a + seq!['e']),
{
    let s = a + seq!['e'];
    reveal_strlit("inf");
    reveal_strlit("nan");
    reveal_strlit("infinity");
    assert(is_digit(a[0]));
    assert(s[0] == a[0]);
    assert(lowered(s) =~= s) by {
        assert forall|i: int| 0 <= i < s.len() implies lowered(s)[i] == s[i] by {
            if i < a.len() {
                assert(s[i] == a[i]);
                assert(is_digit(a[i]));
            }
        }
    }
    assert forall|k: int| 0 <= k < a.len() implies s[k] != 'e' by {
        assert(s[k] == a[k]);
        assert(is_digit(a[k]));
    }
    lemma_index_is(s, 'e', 0, a.len() as int);
    let tail = s.skip(a.len() as int + 1);
    assert(tail.len() == 0);
    assert(without_sign(tail).len() == 0);
    assert("inf"@[0] == 'i' && "nan"@[0] == 'n' && "infinity"@[0] == 'i');
}

} // verus!
