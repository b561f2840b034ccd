//! What the gates read off a model file and decide on it: the types of its
//! tensors, the rows of a type, the bytes of a tensor, and the references that
//! come without floating-point arithmetic. Singles come by their bits.
use crate::bits;
use crate::bits::first_nonfinite;
use crate::gate::bytes_to_words;
use crate::gate::word_at;
use crate::oracle::Arch;
use crate::rank;
use crate::text;
use crate::text::opens_with;
use vstd::prelude::*;

verus! {

/// A tensor's type, those the gates name and any other by its number.
#[allow(non_camel_case_types)]
#[derive(Clone, Copy, Debug, PartialEq, Eq, Structural)]
pub enum GgmlType {
    F32,
    F16,
    Q5_0,
    Q8_0,
    Q3_K,
    Q4_K,
    Q5_K,
    Q6_K,
    Type(u32),
}

// ------------------------------------------------------------ messages

/// The line an error ends a gate with: a message that already opens with the
/// gate's name is not prefixed twice.
pub open spec fn error_line(name: Seq<char>, msg: Seq<char>) -> Seq<char> {
    if opens_with(msg, name + ": "@) {
        msg
    } else {
        name + ": "@ + msg
    }
}

/// The lines an error ends a gate with: `<name>: <error>` and each cause
/// beneath it.
pub fn exit_lines(name: &str, msg: &str, causes: &[String]) -> (r: Vec<String>)
    ensures
        r@.len() == causes@.len() + 1,
        r@[0]@ == error_line(name@, msg@),
        forall|i: int|
            0 <= i < causes@.len() ==> (#[trigger] r@[i + 1])@ == "  caused by: "@ + causes@[i]@,
{
    let mut head: Vec<char> = text::chars_of(name);
    text::push_str(&mut head, ": ");
    let m: Vec<char> = text::chars_of(msg);
    let mut out: Vec<String> = Vec::new();
    if text::starts(m.as_slice(), head.as_slice()) {
        out.push(text::string_of(m.as_slice()));
    } else {
        text::push_chars(&mut head, m.as_slice());
        out.push(text::string_of(head.as_slice()));
    }
    let mut i: usize = 0;
    while i < causes.len()
        invariant
            i <= causes@.len(),
            out@.len() == i + 1,
            out@[0]@ == error_line(name@, msg@),
            forall|k: int|
                1 <= k <= i ==> (#[trigger] out@[k])@ == "  caused by: "@ + causes@[k - 1]@,
        decreases causes@.len() - i,
    {
        let mut line: Vec<char> = text::chars_of("  caused by: ");
        text::push_str(&mut line, causes[i].as_str());
        out.push(text::string_of(line.as_slice()));
        i += 1;
    }
    assert forall|k: int| 0 <= k < causes@.len() implies (#[trigger] out@[k + 1])@
        == "  caused by: "@ + causes@[k]@ by {
        let j = k + 1;
        assert(out@[j]@ == "  caused by: "@ + causes@[j - 1]@);
    }
    out
}

// ------------------------------------------------------------ sets by name

/// Where a named dump set lies.
#[derive(Clone, Debug)]
pub enum SetPlace {
    /// The directory itself.
    Directory(String),
    /// Under the data directory, as the V4.1 file the tree runs names it.
    V41(String),
    /// Under the data directory.
    Data(String),
}

/// What a set's place holds, and which kind it is.
pub open spec fn place_of(set: Seq<char>, p: SetPlace) -> bool {
    if opens_with(set, "/"@) {
        p matches SetPlace::Directory(s) && s@ == set
    } else if opens_with(set, "ref_deepseek41"@) {
        p matches SetPlace::V41(s) && s@ == set
    } else {
        p matches SetPlace::Data(s) && s@ == set
    }
}

/// A named dump set's place: an absolute name is the directory itself, a name
/// of the V4.1 family the set of that name for the V4.1 file the tree runs, so
/// every reader of a V4.1 set by name follows the file choice, and anything
/// else a directory under the data directory.
pub fn ref_dir_named(set: &str) -> (r: SetPlace)
    ensures
        place_of(set@, r),
{
    let cs: Vec<char> = text::chars_of(set);
    let s: String = text::string_of(cs.as_slice());
    if text::starts(cs.as_slice(), text::chars_of("/").as_slice()) {
        SetPlace::Directory(s)
    } else if text::starts(cs.as_slice(), text::chars_of("ref_deepseek41").as_slice()) {
        SetPlace::V41(s)
    } else {
        SetPlace::Data(s)
    }
}

/// The place of the set the gates read: the directory that is given if one is,
/// else the set that is named, else the deepseek2 table's CUDA set.
pub fn ref_dir(dir: Option<&str>, set: Option<&str>) -> (r: SetPlace)
    ensures
        match dir {
            Some(d) => r matches SetPlace::Directory(s) && s@ == d@,
            None => match set {
                Some(n) => place_of(n@, r),
                None => r matches SetPlace::Data(s) && s@ == "ref_cuda_v2"@,
            },
        },
{
    match dir {
        Some(d) => SetPlace::Directory(text::string_of(text::chars_of(d).as_slice())),
        None => match set {
            Some(n) => ref_dir_named(n),
            None => SetPlace::Data(text::string_of(text::chars_of("ref_cuda_v2").as_slice())),
        },
    }
}

// ------------------------------------------------------------ metadata

/// A metadata value, as far as a token id reads it.
#[derive(Clone, Copy, Debug, PartialEq, Eq, Structural)]
pub enum IdValue {
    U32(u32),
    I32(i32),
    Other,
}

/// The file's end-of-sequence token, stored as a u32 or a non-negative i32;
/// `None` of a file that names none.
pub fn eos_token_id(value: Option<IdValue>) -> (r: Option<u32>)
    ensures
        r == (match value {
            Some(IdValue::U32(e)) => Some(e),
            Some(IdValue::I32(e)) => if e >= 0 {
                Some(e as u32)
            } else {
                None
            },
            _ => None,
        }),
{
    match value {
        Some(IdValue::U32(e)) => Some(e),
        Some(IdValue::I32(e)) => if e >= 0 {
            Some(e as u32)
        } else {
            None
        },
        _ => None,
    }
}

/// Whether a model file is of architecture `arch`.
pub fn expect_arch(have: Option<&str>, arch: Arch) -> (r: bool)
    ensures
        r == (have matches Some(h) && h@ == arch.spelling()),
{
    match have {
        Some(h) => text::same_str(h, arch.name()),
        None => false,
    }
}

// ------------------------------------------------------------ tensors

/// Why a type has no row of a width.
#[derive(Clone, Copy, Debug, PartialEq, Eq, Structural)]
pub enum RowError {
    /// The type has no block or type size.
    Unsupported,
    /// The width is not a multiple of the block.
    Width,
}

/// The values of a block, at least one.
pub open spec fn block_of(blck: u64) -> u64 {
    if blck == 0 {
        1
    } else {
        blck
    }
}

/// Bytes of one row of `k` values of a type of `blck` values and `size` bytes a
/// block.
pub fn row_bytes(blck: Option<u64>, size: Option<u64>, k: u64) -> (r: Result<u64, RowError>)
    requires
        blck is Some && size is Some ==> (k / block_of(blck->0)) * size->0 <= u64::MAX,
    ensures
        r == (if blck is None || size is None {
            Err::<u64, RowError>(RowError::Unsupported)
        } else if k % block_of(blck->0) != 0 {
            Err(RowError::Width)
        } else {
            Ok(((k / block_of(blck->0)) * size->0) as u64)
        }),
{
    match (blck, size) {
        (Some(b), Some(size)) => {
            let b: u64 = if b == 0 {
                1
            } else {
                b
            };
            if k % b != 0 {
                return Err(RowError::Width);
            }
            Ok((k / b) * size)
        },
        _ => Err(RowError::Unsupported),
    }
}

/// A quiet f16 NaN, as the gates write it into f16 rows, rings and scales a
/// kernel must not read (or must read and raise the fault word on).
pub const NAN_F16: u16 = 0x7e00;

/// Byte offset of the f16 super-block scale `d` inside one super-block of a
/// K-quant (the Q3_K block ends with it, the Q4_K block opens with it, the Q6_K
/// block ends with it). Any other type is refused by name: a gate that poisons
/// a scale must not poison a guess.
pub fn kquant_d_at(ty: GgmlType) -> (r: Result<usize, GgmlType>)
    ensures
        r == (match ty {
            GgmlType::Q3_K => Ok::<usize, GgmlType>(108),
            GgmlType::Q4_K => Ok(0),
            GgmlType::Q6_K => Ok(208),
            _ => Err(ty),
        }),
{
    match ty {
        GgmlType::Q3_K => Ok(108),
        GgmlType::Q4_K => Ok(0),
        GgmlType::Q6_K => Ok(208),
        other => Err(other),
    }
}

/// Whether a tensor is the one a gate was written for: of type `ty` and, when
/// `dims` is given, of exactly those dims.
pub fn tensor_is(have_ty: GgmlType, have_dims: &[u64], ty: GgmlType, dims: Option<&[u64]>) -> (r:
    bool)
    ensures
        r == (have_ty == ty && (dims matches Some(d) ==> d@ == have_dims@)),
{
    if have_ty != ty {
        return false;
    }
    match dims {
        None => true,
        Some(d) => {
            if d.len() != have_dims.len() {
                return false;
            }
            let mut i: usize = 0;
            while i < d.len()
                invariant
                    i <= d@.len() == have_dims@.len(),
                    have_ty == ty,
                    dims == Some(d),
                    forall|k: int| 0 <= k < i ==> d@[k] == have_dims@[k],
                decreases d@.len() - i,
            {
                if d[i] != have_dims[i] {
                    assert(d@[i as int] != have_dims@[i as int]);
                    return false;
                }
                i += 1;
            }
            assert(d@ =~= have_dims@);
            true
        },
    }
}

/// An F32 tensor's values, length-checked; `None` when its bytes are not those
/// of `want` values.
pub fn f32_tensor(b: &[u8], want: usize) -> (r: Option<Vec<u32>>)
    ensures
        match r {
            Some(v) => b@.len() == want * 4 && v@.len() == want && forall|k: int|
                0 <= k < want ==> #[trigger] v@[k] == word_at(b@, k),
            None => b@.len() != want * 4,
        },
{
    let n: usize = b.len();
    if n % 4 != 0 || n / 4 != want {
        return None;
    }
    Some(bytes_to_words(b))
}

/// The product of dims.
pub open spec fn elements(dims: Seq<u64>) -> int
    decreases dims.len(),
{
    if dims.len() == 0 {
        1
    } else {
        elements(dims.drop_last()) * dims.last()
    }
}

/// Every product of leading dims fits 64 bits.
pub open spec fn elements_fit(dims: Seq<u64>) -> bool {
    forall|k: int| 0 <= k <= dims.len() ==> elements(#[trigger] dims.take(k)) <= u64::MAX
}

/// Whether a tensor is F32 with `want` values.
pub fn is_f32_of(ty: GgmlType, dims: &[u64], want: u64) -> (r: bool)
    requires
        elements_fit(dims@),
    ensures
        r == (ty == GgmlType::F32 && elements(dims@) == want),
{
    let mut n: u64 = 1;
    let mut i: usize = 0;
    assert(dims@.take(0) =~= seq![]);
    while i < dims.len()
        invariant
            i <= dims@.len(),
            elements_fit(dims@),
            n == elements(dims@.take(i as int)),
        decreases dims@.len() - i,
    {
        proof {
            assert(dims@.take(i + 1).drop_last() =~= dims@.take(i as int));
            assert(dims@.take(i + 1).last() == dims@[i as int]);
            assert(elements(dims@.take(i + 1)) <= u64::MAX);
        }
        n = n * dims[i];
        i += 1;
    }
    assert(dims@.take(dims@.len() as int) =~= dims@);
    ty == GgmlType::F32 && n == want
}

/// Whether a gemv's operands hold what it reads: `n_rows` rows of `rb` bytes
/// and `m` columns of `k` values.
pub fn gemv_fits(w_len: usize, rb: usize, n_rows: usize, x_len: usize, k: usize, m: usize) -> (r:
    bool)
    ensures
        r == (rb * n_rows <= w_len && k * m <= x_len),
{
    let rows: Option<usize> = rb.checked_mul(n_rows);
    let cols: Option<usize> = k.checked_mul(m);
    match (rows, cols) {
        (Some(a), Some(b)) => a <= w_len && b <= x_len,
        _ => false,
    }
}

/// Whether `n` bytes at `at` lie inside an allocation of `total` bytes.
pub fn span_inside(at: usize, n: usize, total: usize) -> (r: bool)
    ensures
        r == (at + n <= total),
{
    n <= total && at <= total - n
}

// ------------------------------------------------------------ activations

/// The generator's next state.
pub open spec fn lcg(s: int) -> int {
    (s * 1_103_515_245 + 12_345) % 0x1_0000_0000
}

/// The generator's state after `i` steps from a seed.
pub open spec fn lcg_state(seed: u32, i: int) -> int
    decreases i,
{
    if i <= 0 {
        (seed * 2_654_435_761 + 12_345) % 0x1_0000_0000
    } else {
        lcg(lcg_state(seed, i - 1))
    }
}

/// Activation `i`, in 32768ths: sixteen bits of the state mapped to [-1, 1),
/// every 61st value scaled by 8 so that a block's largest magnitude is not
/// always near 1.
pub open spec fn activation(seed: u32, i: int) -> int {
    let u = (lcg_state(seed, i + 1) / 256) % 65536 - 32768;
    if i % 61 == 0 {
        8 * u
    } else {
        u
    }
}

/// `m` activation columns of `k` values each, concatenated, in 32768ths. Values
/// never depend on time or on the host.
pub fn activations(k: usize, m: usize, seed: u32) -> (r: Vec<i32>)
    requires
        k * m <= usize::MAX,
    ensures
        r@.len() == k * m,
        forall|i: int| 0 <= i < k * m ==> #[trigger] r@[i] == activation(seed, i),
{
    let n: usize = k * m;
    let mut s: u64 = (seed as u64 * 2_654_435_761 + 12_345) % 0x1_0000_0000;
    let mut out: Vec<i32> = Vec::new();
    let mut i: usize = 0;
    while i < n
        invariant
            i <= n,
            n == k * m,
            out@.len() == i,
            s < 0x1_0000_0000,
            s == lcg_state(seed, i as int),
            forall|x: int| 0 <= x < i ==> #[trigger] out@[x] == activation(seed, x),
        decreases n - i,
    {
        s = (s * 1_103_515_245 + 12_345) % 0x1_0000_0000;
        let u: i32 = ((s / 256) % 65536) as i32 - 32768;
        if i % 61 == 0 {
            out.push(8 * u);
        } else {
            out.push(u);
        }
        i += 1;
    }
    out
}

/// Every activation lies in [-1, 1), or in [-8, 8) where it is scaled.
pub proof fn law_activations_are_bounded(seed: u32, i: int)
    requires
        0 <= i,
    ensures
        i % 61 != 0 ==> -32768 <= activation(seed, i) < 32768,
        -8 * 32768 <= activation(seed, i) < 8 * 32768,
{
}

// ------------------------------------------------------------ relative error

/// Why a relative error is no score.
#[derive(Clone, Copy, Debug, PartialEq, Eq, Structural)]
pub enum RelError {
    /// The two sides are not of one length.
    Length,
    /// The output at this index is not finite.
    Output(usize),
    /// The reference at this index is not finite.
    Reference(usize),
    /// The reference is all zero.
    AllZero,
}

/// The magnitude of a single, by its bits.
pub open spec fn magnitude(b: u32) -> u32 {
    (b % 0x8000_0000) as u32
}

/// The largest magnitude of the first `n`, 0 of none.
pub open spec fn largest_magnitude(v: Seq<u32>, n: int) -> u32
    decreases n,
{
    if n <= 0 {
        0
    } else {
        let before = largest_magnitude(v, n - 1);
        if magnitude(v[n - 1]) > before {
            magnitude(v[n - 1])
        } else {
            before
        }
    }
}

/// What a relative error divides by.
pub open spec fn scale_of(y: Seq<u32>, y_ref: Seq<u32>) -> Result<u32, RelError> {
    if y.len() != y_ref.len() {
        Err(RelError::Length)
    } else {
        match first_nonfinite(y, 0) {
            Some(i) => Err(RelError::Output(i as usize)),
            None => match first_nonfinite(y_ref, 0) {
                Some(i) => Err(RelError::Reference(i as usize)),
                None => if largest_magnitude(y_ref, y_ref.len() as int) == 0 {
                    Err(RelError::AllZero)
                } else {
                    Ok(largest_magnitude(y_ref, y_ref.len() as int))
                },
            },
        }
    }
}

/// What the relative error of an output divides by, the reference's largest
/// magnitude; an all-zero reference or any non-finite value on either side is
/// an error, not a score. A maximum alone would not see a NaN: an all-NaN
/// output would score 0.
pub fn rel_err_scale(y: &[u32], y_ref: &[u32]) -> (r: Result<u32, RelError>)
    ensures
        r == scale_of(y@, y_ref@),
{
    if y.len() != y_ref.len() {
        return Err(RelError::Length);
    }
    match bits::find_nonfinite(y) {
        Some(i) => {
            return Err(RelError::Output(i));
        },
        None => {},
    }
    match bits::find_nonfinite(y_ref) {
        Some(i) => {
            return Err(RelError::Reference(i));
        },
        None => {},
    }
    let mut most: u32 = 0;
    let mut i: usize = 0;
    while i < y_ref.len()
        invariant
            i <= y_ref@.len(),
            most == largest_magnitude(y_ref@, i as int),
        decreases y_ref@.len() - i,
    {
        let mag: u32 = y_ref[i] % 0x8000_0000;
        if mag > most {
            most = mag;
        }
        i += 1;
    }
    if most == 0 {
        Err(RelError::AllZero)
    } else {
        Ok(most)
    }
}

// ------------------------------------------------------------ routing

/// A single's place in the total order of singles: the negative ones below,
/// the two zeros apart.
pub open spec fn total_key(b: u32) -> int {
    if b < 0x8000_0000 {
        b as int
    } else {
        0x7fff_ffff - b
    }
}

/// The places of probabilities in the total order.
pub open spec fn total_keys(p: Seq<u32>) -> Seq<i64> {
    p.map_values(|b: u32| total_key(b) as i64)
}

/// Ids as indices.
pub open spec fn indices(ids: Seq<u32>) -> Seq<usize> {
    ids.map_values(|i: u32| i as usize)
}

/// The `k` ids of the largest probabilities: by probability, the largest
/// first, and by id, the lowest first.
pub fn rank_ids(p: &[u32], k: usize) -> (r: Vec<u32>)
    requires
        k <= p@.len() <= u32::MAX,
    ensures
        rank::is_top(indices(r@), total_keys(p@), k as int),
{
    let mut keys: Vec<i64> = Vec::new();
    let mut i: usize = 0;
    while i < p.len()
        invariant
            i <= p@.len(),
            keys@ =~= total_keys(p@).take(i as int),
        decreases p@.len() - i,
    {
        let key: i64 = if p[i] < 0x8000_0000 {
            p[i] as i64
        } else {
            0x7fff_ffff - p[i] as i64
        };
        keys.push(key);
        i += 1;
    }
    assert(total_keys(p@).take(p@.len() as int) =~= total_keys(p@));
    let top: Vec<usize> = rank::top(keys.as_slice(), k);
    let mut ids: Vec<u32> = Vec::new();
    let mut s: usize = 0;
    while s < top.len()
        invariant
            s <= top@.len() == k,
            p@.len() <= u32::MAX,
            rank::is_top(top@, total_keys(p@), k as int),
            indices(ids@) =~= top@.take(s as int),
        decreases top@.len() - s,
    {
        assert(top@[s as int] < total_keys(p@).len());
        let ghost held = indices(ids@);
        ids.push(top[s] as u32);
        assert(indices(ids@) =~= held.push(top@[s as int]));
        s += 1;
    }
    assert(top@.take(k as int) =~= top@);
    ids
}

/// Why logits are not routed.
#[derive(Clone, Copy, Debug, PartialEq, Eq, Structural)]
pub enum RouteError {
    /// The logits are not `n_expert` for each of the tokens.
    Length,
    /// The logit at this index is not finite.
    NonFinite(usize),
}

/// Whether logits can be routed: `n` for each of `m` tokens, all finite.
pub fn check_routing(logits: &[u32], m: usize, n: usize) -> (r: Result<(), RouteError>)
    ensures
        r == (if logits@.len() != n * m {
            Err::<(), RouteError>(RouteError::Length)
        } else {
            match first_nonfinite(logits@, 0) {
                Some(i) => Err(RouteError::NonFinite(i as usize)),
                None => Ok(()),
            }
        }),
{
    let len: usize = logits.len();
    match n.checked_mul(m) {
        None => {
            assert(len <= usize::MAX);
            return Err(RouteError::Length);
        },
        Some(want) => {
            if len != want {
                return Err(RouteError::Length);
            }
        },
    }
    match bits::find_nonfinite(logits) {
        Some(i) => Err(RouteError::NonFinite(i)),
        None => Ok(()),
    }
}

/// The total order of single patterns: a smaller value comes first, a negative zero
/// before a zero, a NaN outside the infinity of its sign, and no two patterns are
/// level.
pub proof fn law_patterns_stand_in_total_order(a: u32, b: u32)
    ensures
        bits::less(a, b) ==> total_key(a) < total_key(b),
        total_key(a) == total_key(b) ==> a == b,
        a >= 0x8000_0000 && b < 0x8000_0000 ==> total_key(a) < total_key(b),
        a < b < 0x8000_0000 ==> total_key(a) < total_key(b),
        0x8000_0000 <= a < b ==> total_key(b) < total_key(a),
        -0x8000_0000 <= total_key(a) < 0x8000_0000,
{
}

/// An error's line says the program's name once, at its start, whether the message
/// already opens with it or not, and ends with the message.
pub proof fn law_an_error_says_the_name_once(name: Seq<char>, msg: Seq<char>)
    ensures
        opens_with(error_line(name, msg), name + ": "@),
        crate::text::ends_with(error_line(name, msg), msg),
        error_line(name, name + ": "@ + msg) == name + ": "@ + msg,
        !opens_with(msg, name + ": "@) ==> error_line(name, msg) == name + ": "@ + msg,
        opens_with(msg, name + ": "@) ==> error_line(name, msg) == msg,
{
    let p = name + ": "@;
    let whole = p + msg;
    assert(whole.take(p.len() as int) =~= p);
    assert(whole.skip(whole.len() - msg.len()) =~= msg);
    assert(msg.skip(0) =~= msg);
}

/// A tensor's elements are the product of its axes: an axis multiplies them, and
/// axes side by side multiply theirs.
pub proof fn law_the_axes_multiply(a: Seq<u64>, b: Seq<u64>, d: u64)
    ensures
        elements(seq![]) == 1,
        elements(seq![d]) == d,
        elements(a + b) == elements(a) * elements(b),
    decreases b.len(),
{
    let one = seq![d];
    assert(one.drop_last() =~= Seq::<u64>::empty());
    reveal_with_fuel(elements, 2);
    if b.len() == 0 {
        assert(a + b =~= a);
    } else {
        law_the_axes_multiply(a, b.drop_last(), d);
        assert((a + b).drop_last() =~= a + b.drop_last());
        let (x, y, z) = (elements(a), elements(b.drop_last()), b.last() as int);
        assert((x * y) * z == x * (y * z)) by (nonlinear_arith);
    }
}

/// An activation is the middle two bytes of its draw, as a signed offset from the
/// middle of their range; every 61st, from the first on, stands out eight times.
pub proof fn law_an_activation_is_its_draws_middle(seed: u32, i: int)
    requires
        0 <= i,
    ensures
        ({
            let a = activation(seed, i);
            let u = if i % 61 == 0 {
                a / 8
            } else {
                a
            };
            let draw = lcg_state(seed, i + 1);
            let (high, low) = (draw / 0x100_0000, draw % 0x100);
            &&& i % 61 == 0 ==> a % 8 == 0
            &&& draw == high * 0x100_0000 + (u + 0x8000) * 0x100 + low
            &&& 0 <= high < 0x100
            &&& 0 <= u + 0x8000 < 0x1_0000
        }),
        (lcg_state(seed, i) * 1_103_515_245 + 12_345 - lcg_state(seed, i + 1)) % 0x1_0000_0000 == 0,
        (seed * 2_654_435_761 + 12_345 - lcg_state(seed, 0)) % 0x1_0000_0000 == 0,
        0 <= lcg_state(seed, i) < 0x1_0000_0000,
{
    reveal_with_fuel(lcg_state, 2);
}

/// The scale of a comparison is the magnitude of a reference value that none is
/// above, and it is there exactly where the two have one length, every value is
/// finite and some reference value is no zero.
pub proof fn law_the_scale_is_the_largest_reference(y: Seq<u32>, y_ref: Seq<u32>, i: int)
    requires
        0 <= i < y_ref.len(),
    ensures
        scale_of(y, y_ref) matches Ok(s) ==> {
            &&& y.len() == y_ref.len()
            &&& s > 0
            &&& y_ref[i] % 0x8000_0000 <= s
            &&& exists|k: int| 0 <= k < y_ref.len() && #[trigger] y_ref[k] % 0x8000_0000 == s
            &&& y[i] % 0x8000_0000 < 0x7f80_0000
            &&& y_ref[i] % 0x8000_0000 < 0x7f80_0000
        },
        scale_of(y, y_ref) == Err::<u32, RelError>(RelError::AllZero) ==> y_ref[i] % 0x8000_0000
            == 0,
        scale_of(y, y_ref) == Err::<u32, RelError>(RelError::Length) <==> y.len() != y_ref.len(),
{
    lemma_largest(y_ref, y_ref.len() as int, i);
    if y.len() == y_ref.len() {
        crate::finite::lemma_first_bad_is(y, 0, i);
        crate::finite::lemma_first_bad_is(y_ref, 0, i);
        bits::law_singles_order_as_their_values(y[i], 0);
        bits::law_singles_order_as_their_values(y_ref[i], 0);
    }
}

proof fn lemma_largest(v: Seq<u32>, n: int, i: int)
    requires
        0 <= i < n <= v.len(),
    ensures
        v[i] % 0x8000_0000 <= largest_magnitude(v, n),
        exists|k: int| 0 <= k < n && #[trigger] v[k] % 0x8000_0000 == largest_magnitude(v, n),
    decreases n,
{
    let last = v[n - 1];
    if n == 1 {
        reveal_with_fuel(largest_magnitude, 2);
        assert(v[0] % 0x8000_0000 == largest_magnitude(v, n));
    } else {
        lemma_largest(
            v,
            n - 1,
            if i < n - 1 {
                i
            } else {
                0
            },
        );
        let k = choose|k: int|
            0 <= k < n - 1 && #[trigger] v[k] % 0x8000_0000 == largest_magnitude(v, n - 1);
        if magnitude(last) > largest_magnitude(v, n - 1) {
            assert(v[n - 1] % 0x8000_0000 == largest_magnitude(v, n));
        } else {
            assert(v[k] % 0x8000_0000 == largest_magnitude(v, n));
        }
    }
}

/// A set is found by how its name starts: a path is itself, one of the V4.1 sets
/// lies with those, and any other with the data.
pub proof fn law_a_set_lies_by_its_name(rest: Seq<char>, p: SetPlace)
    ensures
        place_of(seq!['/'] + rest, p) <==> (p matches SetPlace::Directory(s) && s@ == seq!['/'] + rest),
        place_of("ref_deepseek41"@ + rest, p) <==> (p matches SetPlace::V41(s) && s@
            == "ref_deepseek41"@ + rest),
        !opens_with(rest, "/"@) && !opens_with(rest, "ref_deepseek41"@) ==> (place_of(rest, p) <==> (
        p matches SetPlace::Data(s) && s@ == rest)),
{
    reveal_strlit("/");
    reveal_strlit("ref_deepseek41");
    assert((seq!['/'] + rest).take(1) =~= "/"@);
    let v = "ref_deepseek41"@ + rest;
    assert(v.take(14) =~= "ref_deepseek41"@);
    assert(v[0] == 'r');
    assert("/"@[0] == '/');
    assert(v.take(1)[0] == 'r');
}

/// A type that names no block has one value a block, and any other the block it
/// names.
pub proof fn law_a_block_is_never_empty(blck: u64)
    ensures
        block_of(blck) >= 1,
        blck >= 1 ==> block_of(blck) == blck,
        block_of(0) == 1,
{
}

} // verus!
