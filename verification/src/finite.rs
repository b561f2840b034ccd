//! The V4.1 step's finite probe: which seams of an observed step hold a NaN or
//! an infinity, and at the first such MoE seam every buffer the sub-layer
//! wrote, in launch order. Singles come by their bits.
//!
//! The logits alone cannot see this. A quantizer takes its scale from a block's
//! largest magnitude and falls back to 1 when that is not above 0 (a NaN is
//! not), and a NaN code converts to 0: the head's quantized input is then all
//! zeros, every logit is 0, and the argmax is id 0. The residual streams keep
//! the NaN from the seam where it appeared to the last layer, so the streams
//! are where it shows.
use crate::bits;
use crate::bits::finite;
use crate::bits::first_nonfinite;
use crate::count::count_where;
use crate::count::lemma_count_bound;
use crate::model_file::magnitude;
use crate::text;
use crate::text::decimal;
use vstd::prelude::*;
use vstd::slice::slice_subrange;

verus! {

/// What a fault's line adds where the combine is the first bad buffer.
pub const HOST_SUM: &'static str =
    " — every card slot and the shared expert are finite: the host's partial sum";

/// The piece whose streams a seam shows.
#[derive(Clone, Copy, Debug, PartialEq, Eq, Structural)]
pub enum Piece {
    Engram,
    Attention,
    Moe,
}

impl Piece {
    /// The piece's name.
    pub open spec fn spelling(self) -> Seq<char> {
        match self {
            Piece::Engram => "engram"@,
            Piece::Attention => "attention"@,
            Piece::Moe => "moe"@,
        }
    }

    /// The piece's name.
    pub fn name(self) -> (r: &'static str)
        ensures
            r@ == self.spelling(),
    {
        match self {
            Piece::Engram => "engram",
            Piece::Attention => "attention",
            Piece::Moe => "moe",
        }
    }
}

/// A seam of the step: the layer, and the piece.
#[derive(Clone, Copy, Debug, PartialEq, Eq, Structural)]
pub struct Site {
    pub layer: usize,
    pub piece: Piece,
}

/// A seam as the lines print it.
pub open spec fn site_text(s: Site) -> Seq<char> {
    seq!['('] + decimal(s.layer as nat) + ", "@ + s.piece.spelling() + seq![')']
}

/// A seam as the lines print it: `(layer, piece)`.
pub fn site_name(s: Site) -> (r: String)
    ensures
        r@ == site_text(s),
{
    let mut out: Vec<char> = vec!['('];
    text::push_decimal(&mut out, s.layer as u64);
    text::push_str(&mut out, ", ");
    text::push_str(&mut out, s.piece.name());
    out.push(')');
    assert(out@ =~= site_text(s));
    text::string_of(out.as_slice())
}

/// The largest magnitude of the finite values among the first `n`, 0 of none.
pub open spec fn finite_absmax(v: Seq<u32>, n: int) -> u32
    decreases n,
{
    if n <= 0 {
        0
    } else {
        let before = finite_absmax(v, n - 1);
        if finite(v[n - 1]) && magnitude(v[n - 1]) > before {
            magnitude(v[n - 1])
        } else {
            before
        }
    }
}

/// Whether a value is not finite.
pub open spec fn bad_at(v: Seq<u32>) -> spec_fn(int) -> bool {
    |i: int| !finite(v[i])
}

/// What a list of values holds: its finite values' largest magnitude, how many
/// are not finite, and the first of those.
fn survey(v: &[u32]) -> (r: (u32, usize, Option<usize>))
    ensures
        r.0 == finite_absmax(v@, v@.len() as int),
        r.1 == count_where(v@.len() as int, bad_at(v@)),
        match r.2 {
            Some(i) => first_nonfinite(v@, 0) == Some(i as int),
            None => first_nonfinite(v@, 0) is None,
        },
{
    let mut absmax: u32 = 0;
    let mut bad: usize = 0;
    let mut i: usize = 0;
    while i < v.len()
        invariant
            i <= v@.len(),
            absmax == finite_absmax(v@, i as int),
            bad == count_where(i as int, bad_at(v@)),
        decreases v@.len() - i,
    {
        proof {
            lemma_count_bound(i as int, bad_at(v@));
        }
        if bits::is_finite(v[i]) {
            let m: u32 = v[i] % 0x8000_0000;
            if m > absmax {
                absmax = m;
            }
        } else {
            bad += 1;
        }
        i += 1;
    }
    (absmax, bad, bits::find_nonfinite(v))
}

// ------------------------------------------------------------ buffers

/// One buffer of a MoE sub-layer as the probe read it.
#[derive(Clone, Debug)]
pub struct Buf {
    pub name: String,
    pub len: usize,
    /// Values that are NaN or infinite, and the first one's index.
    pub bad: usize,
    pub first_bad: Option<usize>,
    /// The finite values' largest magnitude.
    pub absmax: u32,
}

impl Buf {
    /// The buffer is these values under this name.
    pub open spec fn is_of(&self, name: Seq<char>, v: Seq<u32>) -> bool {
        &&& self.name@ == name
        &&& self.len == v.len()
        &&& self.bad == count_where(v.len() as int, bad_at(v))
        &&& match self.first_bad {
            Some(i) => first_nonfinite(v, 0) == Some(i as int),
            None => first_nonfinite(v, 0) is None,
        }
        &&& self.absmax == finite_absmax(v, v.len() as int)
    }

    /// A buffer of some values.
    pub fn of(name: String, v: &[u32]) -> (r: Buf)
        ensures
            r.is_of(name@, v@),
    {
        let (absmax, bad, first_bad) = survey(v);
        Buf { name, len: v.len(), bad, first_bad, absmax }
    }
}

/// A buffer has a first bad value exactly where it counts one.
pub proof fn law_a_bad_buffer_has_a_first(b: Buf, name: Seq<char>, v: Seq<u32>)
    requires
        b.is_of(name, v),
    ensures
        b.bad > 0 <==> b.first_bad is Some,
{
    lemma_bad_count(v, v.len() as int);
    lemma_first_bad(v, 0);
    if first_nonfinite(v, 0) is None {
        bits::lemma_all_finite(v, 0);
    }
}

proof fn lemma_bad_count(v: Seq<u32>, n: int)
    requires
        0 <= n <= v.len(),
    ensures
        count_where(n, bad_at(v)) > 0 <==> exists|i: int| 0 <= i < n && !finite(#[trigger] v[i]),
    decreases n,
{
    if n > 0 {
        lemma_bad_count(v, n - 1);
        if count_where(n - 1, bad_at(v)) > 0 {
            let i = choose|i: int| 0 <= i < n - 1 && !finite(#[trigger] v[i]);
            assert(!finite(v[i]));
        } else if !finite(v[n - 1]) {
            assert(bad_at(v)(n - 1));
        }
    }
}

proof fn lemma_first_bad(v: Seq<u32>, at: int)
    requires
        0 <= at,
    ensures
        first_nonfinite(v, at) matches Some(i) ==> at <= i < v.len() && !finite(v[i]),
    decreases v.len() - at,
{
    if at < v.len() && finite(v[at]) {
        lemma_first_bad(v, at + 1);
    }
}

// ------------------------------------------------------------ the fault

/// What a MoE sub-layer wrote, as read back: its routing and its buffers.
#[derive(Clone, Copy, Debug)]
pub struct MoeTaps<'a> {
    pub layer: usize,
    /// Each slot's expert.
    pub ids: &'a [u32],
    /// Each slot's place in the card's stacks, or `host`.
    pub places: &'a [u32],
    /// The place of a slot that runs on the host.
    pub host: u32,
    pub fold_in: &'a [u32],
    pub router_logits: &'a [u32],
    pub router_probs: &'a [u32],
    pub router_weights: &'a [u32],
    pub hc_pre: &'a [u32],
    /// Every slot's SwiGLU, slot after slot.
    pub h: &'a [u32],
    /// Every slot's down, slot after slot.
    pub down: &'a [u32],
    pub shexp_h: &'a [u32],
    pub shexp: &'a [u32],
    pub y: &'a [u32],
    pub streams: &'a [u32],
    pub fold_out: Option<&'a [u32]>,
}

/// A MoE sub-layer whose streams came out non-finite: its routing and its
/// buffers in launch order. A host slot's h and down are not the card's work
/// and are left out; the host's partial sum is not a buffer the seam shows, so
/// where the combine is the first bad buffer with every card slot and the
/// shared expert finite, the sum it added is the one left.
#[derive(Clone, Debug)]
pub struct MoeFault {
    pub layer: usize,
    pub ids: Vec<u32>,
    /// Each slot's weight, by its bits.
    pub weights: Vec<u32>,
    /// Each slot's place in the card's stacks, or `host`.
    pub places: Vec<u32>,
    /// The place of a slot that runs on the host.
    pub host: u32,
    /// The sub-layer's input before its norm.
    pub fold_in: Vec<u32>,
    pub buffers: Vec<Buf>,
}

/// A buffer by its name and values.
pub ghost struct Named {
    pub name: Seq<char>,
    pub values: Seq<u32>,
}

/// The name of a slot's buffer.
pub open spec fn slot_name(what: Seq<char>, s: int, id: u32) -> Seq<char> {
    what + "[slot "@ + decimal(s as nat) + " id "@ + decimal(id as nat) + "]"@
}

/// A slot's part of a list over all slots.
pub open spec fn slot_part(v: Seq<u32>, s: int, slots: int) -> Seq<u32> {
    v.subrange(s * (v.len() as int / slots), (s + 1) * (v.len() as int / slots))
}

/// The card slots' buffers, of the first `n` slots.
pub open spec fn slot_buffers(t: MoeTaps<'_>, n: int) -> Seq<Named>
    decreases n,
{
    if n <= 0 {
        seq![]
    } else {
        let before = slot_buffers(t, n - 1);
        let slots = t.places@.len() as int;
        if t.places@[n - 1] == t.host {
            before
        } else {
            before + seq![
                Named {
                    name: slot_name("h"@, n - 1, t.ids@[n - 1]),
                    values: slot_part(t.h@, n - 1, slots),
                },
                Named {
                    name: slot_name("down"@, n - 1, t.ids@[n - 1]),
                    values: slot_part(t.down@, n - 1, slots),
                },
            ]
        }
    }
}

/// The buffers before the slots.
pub open spec fn head_buffers(t: MoeTaps<'_>) -> Seq<Named> {
    seq![
        Named { name: "fold_in"@, values: t.fold_in@ },
        Named { name: "router.logits"@, values: t.router_logits@ },
        Named { name: "router.probs"@, values: t.router_probs@ },
        Named { name: "router.weights"@, values: t.router_weights@ },
        Named { name: "hc_pre"@, values: t.hc_pre@ },
    ]
}

/// The buffers after the slots.
pub open spec fn tail_buffers(t: MoeTaps<'_>) -> Seq<Named> {
    seq![
        Named { name: "shexp_h"@, values: t.shexp_h@ },
        Named { name: "shexp"@, values: t.shexp@ },
        Named { name: "y"@, values: t.y@ },
        Named { name: "streams"@, values: t.streams@ },
    ] + (match t.fold_out {
        Some(f) => seq![Named { name: "fold_out"@, values: f@ }],
        None => seq![],
    })
}

/// Every buffer in launch order.
pub open spec fn launch_order(t: MoeTaps<'_>) -> Seq<Named> {
    head_buffers(t) + slot_buffers(t, t.places@.len() as int) + tail_buffers(t)
}

/// The buffers are these, one for one.
pub open spec fn lists(bufs: Seq<Buf>, named: Seq<Named>) -> bool {
    &&& bufs.len() == named.len()
    &&& forall|i: int|
        0 <= i < bufs.len() ==> (#[trigger] bufs[i]).is_of(named[i].name, named[i].values)
}

/// Adds a buffer.
fn put(bufs: &mut Vec<Buf>, name: &[char], v: &[u32])
    ensures
        forall|named: Seq<Named>|
            lists(old(bufs)@, named) ==> lists(
                final(bufs)@,
                #[trigger] named.push(Named { name: name@, values: v@ }),
            ),
{
    bufs.push(Buf::of(text::string_of(name), v));
}

/// The name of a slot's buffer.
fn slot_tag(what: &str, s: usize, id: u32) -> (r: Vec<char>)
    ensures
        r@ == slot_name(what@, s as int, id),
{
    let mut out: Vec<char> = text::chars_of(what);
    text::push_str(&mut out, "[slot ");
    text::push_decimal(&mut out, s as u64);
    text::push_str(&mut out, " id ");
    text::push_decimal(&mut out, id as u64);
    text::push_str(&mut out, "]");
    out
}

/// A slot's part of a list over all slots.
fn part(v: &[u32], s: usize, slots: usize) -> (r: &[u32])
    requires
        s < slots,
    ensures
        r@ == slot_part(v@, s as int, slots as int),
{
    let n: usize = v.len() / slots;
    let len: usize = v.len();
    proof {
        vstd::arithmetic::div_mod::lemma_fundamental_div_mod(len as int, slots as int);
        assert(slots * n <= len) by (nonlinear_arith)
            requires
                len == slots * n + len as int % slots as int,
                slots > 0,
        ;
        assert((s + 1) * n <= slots * n) by (nonlinear_arith)
            requires
                s + 1 <= slots,
                0 <= n,
        ;
        assert(s * n <= (s + 1) * n) by (nonlinear_arith)
            requires
                0 <= n,
        ;
        assert(0 <= s * n) by (nonlinear_arith)
            requires
                0 <= s,
                0 <= n,
        ;
    }
    slice_subrange(v, s * n, (s + 1) * n)
}

/// A copy of a list.
fn copied(v: &[u32]) -> (r: Vec<u32>)
    ensures
        r@ == v@,
{
    let mut out: Vec<u32> = Vec::new();
    let mut i: usize = 0;
    while i < v.len()
        invariant
            i <= v@.len(),
            out@ == v@.take(i as int),
        decreases v@.len() - i,
    {
        out.push(v[i]);
        assert(v@.take(i + 1) =~= v@.take(i as int).push(v@[i as int]));
        i += 1;
    }
    assert(v@.take(i as int) =~= v@);
    out
}

/// A MoE seam's buffers in launch order: the input it read (the fold its
/// attention seam left), the router, HC_PRE, each card slot's SwiGLU and down,
/// the shared expert, the combine, the new streams and the next fold.
pub fn moe_fault(t: &MoeTaps<'_>) -> (r: MoeFault)
    requires
        t.ids@.len() == t.places@.len(),
        t.places@.len() <= t.router_weights@.len(),
    ensures
        r.layer == t.layer,
        r.ids@ == t.ids@,
        r.weights@ == t.router_weights@.take(t.places@.len() as int),
        r.places@ == t.places@,
        r.host == t.host,
        r.fold_in@ == t.fold_in@,
        lists(r.buffers@, launch_order(*t)),
{
    let mut bufs: Vec<Buf> = Vec::new();
    let ghost mut named: Seq<Named> = Seq::empty();
    put(&mut bufs, text::chars_of("fold_in").as_slice(), t.fold_in);
    proof {
        named = named.push(Named { name: "fold_in"@, values: t.fold_in@ });
    }
    put(&mut bufs, text::chars_of("router.logits").as_slice(), t.router_logits);
    proof {
        named = named.push(Named { name: "router.logits"@, values: t.router_logits@ });
    }
    put(&mut bufs, text::chars_of("router.probs").as_slice(), t.router_probs);
    proof {
        named = named.push(Named { name: "router.probs"@, values: t.router_probs@ });
    }
    put(&mut bufs, text::chars_of("router.weights").as_slice(), t.router_weights);
    proof {
        named = named.push(Named { name: "router.weights"@, values: t.router_weights@ });
    }
    put(&mut bufs, text::chars_of("hc_pre").as_slice(), t.hc_pre);
    proof {
        named = named.push(Named { name: "hc_pre"@, values: t.hc_pre@ });
    }
    assert(named =~= head_buffers(*t));
    let slots: usize = t.places.len();
    let mut s: usize = 0;
    assert(head_buffers(*t) + slot_buffers(*t, 0) =~= head_buffers(*t));
    while s < slots
        invariant
            s <= slots == t.places@.len(),
            t.ids@.len() == slots,
            named == head_buffers(*t) + slot_buffers(*t, s as int),
            lists(bufs@, named),
        decreases slots - s,
    {
        if t.places[s] != t.host {
            let h_name: Vec<char> = slot_tag("h", s, t.ids[s]);
            let h: &[u32] = part(t.h, s, slots);
            put(&mut bufs, h_name.as_slice(), h);
            let d_name: Vec<char> = slot_tag("down", s, t.ids[s]);
            let down: &[u32] = part(t.down, s, slots);
            proof {
                named = named.push(Named { name: h_name@, values: h@ });
            }
            put(&mut bufs, d_name.as_slice(), down);
            proof {
                named = named.push(Named { name: d_name@, values: down@ });
                assert(named =~= head_buffers(*t) + slot_buffers(*t, s + 1));
            }
        }
        s += 1;
    }
    put(&mut bufs, text::chars_of("shexp_h").as_slice(), t.shexp_h);
    proof {
        named = named.push(Named { name: "shexp_h"@, values: t.shexp_h@ });
    }
    put(&mut bufs, text::chars_of("shexp").as_slice(), t.shexp);
    proof {
        named = named.push(Named { name: "shexp"@, values: t.shexp@ });
    }
    put(&mut bufs, text::chars_of("y").as_slice(), t.y);
    proof {
        named = named.push(Named { name: "y"@, values: t.y@ });
    }
    put(&mut bufs, text::chars_of("streams").as_slice(), t.streams);
    proof {
        named = named.push(Named { name: "streams"@, values: t.streams@ });
    }
    match t.fold_out {
        Some(f) => {
            put(&mut bufs, text::chars_of("fold_out").as_slice(), f);
            proof {
                named = named.push(Named { name: "fold_out"@, values: f@ });
            }
        },
        None => {},
    }
    assert(named =~= launch_order(*t));
    MoeFault {
        layer: t.layer,
        ids: copied(t.ids),
        weights: copied(slice_subrange(t.router_weights, 0, slots)),
        places: copied(t.places),
        host: t.host,
        fold_in: copied(t.fold_in),
        buffers: bufs,
    }
}

/// The first bad buffer from `at` on.
pub open spec fn first_bad_buffer(b: Seq<Buf>, at: int) -> Option<int>
    decreases b.len() - at,
{
    if at < 0 || at >= b.len() {
        None
    } else if b[at].bad > 0 {
        Some(at)
    } else {
        first_bad_buffer(b, at + 1)
    }
}

impl MoeFault {
    /// The first buffer in launch order with a non-finite value.
    pub fn first_bad(&self) -> (r: Option<&Buf>)
        ensures
            match r {
                Some(b) => first_bad_buffer(self.buffers@, 0) matches Some(i) && *b
                    == self.buffers@[i],
                None => first_bad_buffer(self.buffers@, 0) is None,
            },
    {
        let mut i: usize = 0;
        while i < self.buffers.len()
            invariant
                i <= self.buffers@.len(),
                first_bad_buffer(self.buffers@, 0) == first_bad_buffer(self.buffers@, i as int),
            decreases self.buffers@.len() - i,
        {
            if self.buffers[i].bad > 0 {
                return Some(&self.buffers[i]);
            }
            i += 1;
        }
        None
    }

    /// Whether the combine is the first bad buffer: every card slot and the
    /// shared expert finite, so the host's partial sum carried it.
    pub fn host_sum_carried(&self) -> (r: bool)
        ensures
            r == (first_bad_buffer(self.buffers@, 0) matches Some(i) && self.buffers@[i].name@
                == "y"@),
    {
        match self.first_bad() {
            Some(b) => text::same_str(b.name.as_str(), "y"),
            None => false,
        }
    }
}

/// A slot's place as the lines print it.
pub open spec fn place_text(place: u32, host: u32) -> Seq<char> {
    if place == host {
        "host"@
    } else {
        "card "@ + decimal(place as nat)
    }
}

/// A slot's place as the lines print it.
pub fn place_name(place: u32, host: u32) -> (r: String)
    ensures
        r@ == place_text(place, host),
{
    let mut out: Vec<char> = Vec::new();
    if place == host {
        text::push_str(&mut out, "host");
    } else {
        text::push_str(&mut out, "card ");
        text::push_decimal(&mut out, place as u64);
    }
    assert(out@ =~= place_text(place, host));
    text::string_of(out.as_slice())
}

/// The routing of the first `n` slots as the line prints it, each weight as
/// printed.
pub open spec fn routing_text(f: MoeFault, weights: Seq<Seq<char>>, n: int) -> Seq<char>
    decreases n,
{
    if n <= 0 {
        seq![]
    } else {
        routing_text(f, weights, n - 1) + " ["@ + decimal(f.ids@[n - 1] as nat) + " w="@
            + weights[n - 1] + " "@ + place_text(f.places@[n - 1], f.host) + "]"@
    }
}

/// An index that may not be there, as the line prints it.
pub open spec fn index_text(i: Option<usize>) -> Seq<char> {
    match i {
        Some(k) => "Some("@ + decimal(k as nat) + ")"@,
        None => "None"@,
    }
}

/// What the line says of the first bad buffer.
pub open spec fn first_bad_text(f: MoeFault) -> Seq<char> {
    match first_bad_buffer(f.buffers@, 0) {
        Some(i) => {
            let b = f.buffers@[i];
            "; first bad buffer "@ + b.name@ + " ("@ + decimal(b.bad as nat) + "/"@ + decimal(
                b.len as nat,
            ) + " non-finite, first at "@ + index_text(b.first_bad) + ")"@ + (if b.name@
                == "y"@ {
                HOST_SUM@
            } else {
                seq![]
            })
        },
        None => "; every buffer the seam shows is finite"@,
    }
}

/// The first `n` buffers as the line prints them, each magnitude as printed.
pub open spec fn buffers_text(b: Seq<Buf>, absmax: Seq<Seq<char>>, n: int) -> Seq<char>
    decreases n,
{
    if n <= 0 {
        seq![]
    } else {
        buffers_text(b, absmax, n - 1) + "; "@ + b[n - 1].name@ + " absmax="@ + absmax[n - 1]
            + " bad="@ + decimal(b[n - 1].bad as nat)
    }
}

/// The line of a fault: its routing, its first bad buffer, its input's root mean
/// square and its buffers, each float as printed.
pub open spec fn fault_text(
    f: MoeFault,
    weights: Seq<Seq<char>>,
    rms: Seq<char>,
    absmax: Seq<Seq<char>>,
) -> Seq<char> {
    "layer "@ + decimal(f.layer as nat) + " moe: routing"@ + routing_text(
        f,
        weights,
        f.ids@.len() as int,
    ) + first_bad_text(f) + "; fold_in rms="@ + rms + buffers_text(
        f.buffers@,
        absmax,
        f.buffers@.len() as int,
    )
}

impl MoeFault {
    /// The routing as the line prints it.
    fn push_routing(&self, out: &mut Vec<char>, weights: &[String])
        requires
            self.places@.len() == self.ids@.len(),
            weights@.len() == self.ids@.len(),
        ensures
            final(out)@ == old(out)@ + routing_text(
                *self,
                text::strings(weights@),
                self.ids@.len() as int,
            ),
    {
        let ghost was = out@;
        let mut s: usize = 0;
        assert(out@ =~= was + routing_text(*self, text::strings(weights@), 0));
        while s < self.ids.len()
            invariant
                s <= self.ids@.len(),
                self.places@.len() == self.ids@.len(),
                weights@.len() == self.ids@.len(),
                out@ == was + routing_text(*self, text::strings(weights@), s as int),
            decreases self.ids@.len() - s,
        {
            text::push_str(out, " [");
            text::push_decimal(out, self.ids[s] as u64);
            text::push_str(out, " w=");
            text::push_str(out, weights[s].as_str());
            text::push_str(out, " ");
            text::push_str(out, place_name(self.places[s], self.host).as_str());
            text::push_str(out, "]");
            s += 1;
            assert(text::strings(weights@)[s - 1] == weights@[s - 1]@);
            assert(out@ =~= was + routing_text(*self, text::strings(weights@), s as int));
        }
    }

    /// What the line says of the first bad buffer.
    fn push_first_bad(&self, out: &mut Vec<char>)
        ensures
            final(out)@ == old(out)@ + first_bad_text(*self),
    {
        let ghost was = out@;
        match self.first_bad() {
            Some(b) => {
                text::push_str(out, "; first bad buffer ");
                text::push_str(out, b.name.as_str());
                text::push_str(out, " (");
                text::push_decimal(out, b.bad as u64);
                text::push_str(out, "/");
                text::push_decimal(out, b.len as u64);
                text::push_str(out, " non-finite, first at ");
                match b.first_bad {
                    Some(k) => {
                        text::push_str(out, "Some(");
                        text::push_decimal(out, k as u64);
                        text::push_str(out, ")");
                    },
                    None => {
                        text::push_str(out, "None");
                    },
                }
                text::push_str(out, ")");
                if text::same_str(b.name.as_str(), "y") {
                    text::push_str(out, HOST_SUM);
                }
            },
            None => {
                text::push_str(out, "; every buffer the seam shows is finite");
            },
        }
        assert(out@ =~= was + first_bad_text(*self));
    }

    /// The buffers as the line prints them.
    fn push_buffers(&self, out: &mut Vec<char>, absmax: &[String])
        requires
            absmax@.len() == self.buffers@.len(),
        ensures
            final(out)@ == old(out)@ + buffers_text(
                self.buffers@,
                text::strings(absmax@),
                self.buffers@.len() as int,
            ),
    {
        let ghost was = out@;
        let mut i: usize = 0;
        assert(out@ =~= was + buffers_text(self.buffers@, text::strings(absmax@), 0));
        while i < self.buffers.len()
            invariant
                i <= self.buffers@.len(),
                absmax@.len() == self.buffers@.len(),
                out@ == was + buffers_text(self.buffers@, text::strings(absmax@), i as int),
            decreases self.buffers@.len() - i,
        {
            text::push_str(out, "; ");
            text::push_str(out, self.buffers[i].name.as_str());
            text::push_str(out, " absmax=");
            text::push_str(out, absmax[i].as_str());
            text::push_str(out, " bad=");
            text::push_decimal(out, self.buffers[i].bad as u64);
            i += 1;
            assert(text::strings(absmax@)[i - 1] == absmax@[i - 1]@);
            assert(out@ =~= was + buffers_text(self.buffers@, text::strings(absmax@), i as int));
        }
    }

    /// The line of the fault: `weights` the slots' weights, `rms` the input's root
    /// mean square and `absmax` the buffers' largest magnitudes, each as printed.
    pub fn line(&self, weights: &[String], rms: &str, absmax: &[String]) -> (r: String)
        requires
            self.places@.len() == self.ids@.len(),
            weights@.len() == self.ids@.len(),
            absmax@.len() == self.buffers@.len(),
        ensures
            r@ == fault_text(*self, text::strings(weights@), rms@, text::strings(absmax@)),
    {
        let mut out: Vec<char> = text::chars_of("layer ");
        text::push_decimal(&mut out, self.layer as u64);
        text::push_str(&mut out, " moe: routing");
        self.push_routing(&mut out, weights);
        self.push_first_bad(&mut out);
        text::push_str(&mut out, "; fold_in rms=");
        text::push_str(&mut out, rms);
        self.push_buffers(&mut out, absmax);
        text::string_of(out.as_slice())
    }
}

// ------------------------------------------------------------ the step

/// What one observed step read: every seam whose streams hold a NaN or an
/// infinity, in step order, and the first such MoE seam.
#[derive(Clone, Debug)]
pub struct Seams {
    pub nonfinite: Vec<Site>,
    pub moe: Option<usize>,
}

/// The values are all finite.
pub open spec fn all_finite(v: Seq<u32>) -> bool {
    first_nonfinite(v, 0) is None
}

impl Seams {
    /// A step that has shown nothing.
    pub fn new() -> (r: Seams)
        ensures
            r.nonfinite@ == Seq::<Site>::empty(),
            r.moe is None,
    {
        Seams { nonfinite: Vec::new(), moe: None }
    }

    /// Takes a seam's streams; whether its sub-layer's buffers are to be read:
    /// at the first MoE seam that is not finite.
    pub fn see(&mut self, site: Site, streams: &[u32]) -> (r: bool)
        ensures
            final(self).nonfinite@ == (if all_finite(streams@) {
                old(self).nonfinite@
            } else {
                old(self).nonfinite@.push(site)
            }),
            r == (!all_finite(streams@) && site.piece == Piece::Moe && old(self).moe is None),
            final(self).moe == (if r {
                Some(site.layer)
            } else {
                old(self).moe
            }),
    {
        match bits::find_nonfinite(streams) {
            None => false,
            Some(_) => {
                self.nonfinite.push(site);
                if site.piece == Piece::Moe && self.moe.is_none() {
                    self.moe = Some(site.layer);
                    true
                } else {
                    false
                }
            },
        }
    }

    /// The first seam whose streams are not finite.
    pub fn first_nonfinite(&self) -> (r: Option<Site>)
        ensures
            r == (if self.nonfinite@.len() > 0 {
                Some(self.nonfinite@[0])
            } else {
                None
            }),
    {
        if self.nonfinite.len() > 0 {
            Some(self.nonfinite[0])
        } else {
            None
        }
    }
}

/// The seams' names, a space between each two.
pub open spec fn sites_text(sites: Seq<Site>) -> Seq<char>
    decreases sites.len(),
{
    if sites.len() == 0 {
        seq![]
    } else if sites.len() == 1 {
        site_text(sites[0])
    } else {
        sites_text(sites.drop_last()) + seq![' '] + site_text(sites.last())
    }
}

/// The line of a step: `ok`, or the non-finite seams, the first one, the logits'
/// state, `absmax` the logits' largest finite magnitude as printed, and the
/// fault's own line where there is one.
pub open spec fn step_text(
    sites: Seq<Site>,
    absmax: Seq<char>,
    bad: nat,
    fault: Option<Seq<char>>,
) -> Seq<char> {
    if sites.len() == 0 {
        "ok"@
    } else {
        "nonfinite_seams="@ + decimal(sites.len()) + " first="@ + site_text(sites[0]) + " ("@
            + sites_text(sites) + ") logits absmax="@ + absmax + " nonfinite="@ + decimal(bad) + (
        match fault {
            Some(f) => " "@ + f,
            None => seq![],
        })
    }
}

/// The line of a step.
pub fn describe(s: &Seams, absmax: &str, bad: usize, fault: Option<&str>) -> (r: String)
    ensures
        r@ == step_text(
            s.nonfinite@,
            absmax@,
            bad as nat,
            match fault {
                Some(f) => Some(f@),
                None => None,
            },
        ),
{
    let sites: &Vec<Site> = &s.nonfinite;
    if sites.len() == 0 {
        return text::string_of(text::chars_of("ok").as_slice());
    }
    let mut list: Vec<char> = text::chars_of(site_name(sites[0]).as_str());
    let mut i: usize = 1;
    assert(sites@.take(1).len() == 1 && sites@.take(1)[0] == sites@[0]);
    while i < sites.len()
        invariant
            1 <= i <= sites@.len(),
            list@ == sites_text(sites@.take(i as int)),
        decreases sites@.len() - i,
    {
        let ghost held = list@;
        list.push(' ');
        text::push_str(&mut list, site_name(sites[i]).as_str());
        assert(sites@.take(i + 1).drop_last() =~= sites@.take(i as int));
        assert(list@ =~= held + seq![' '] + site_text(sites@[i as int]));
        i += 1;
    }
    assert(sites@.take(sites@.len() as int) =~= sites@);
    let mut out: Vec<char> = text::chars_of("nonfinite_seams=");
    text::push_decimal(&mut out, sites.len() as u64);
    text::push_str(&mut out, " first=");
    text::push_str(&mut out, site_name(sites[0]).as_str());
    text::push_str(&mut out, " (");
    text::push_chars(&mut out, list.as_slice());
    text::push_str(&mut out, ") logits absmax=");
    text::push_str(&mut out, absmax);
    text::push_str(&mut out, " nonfinite=");
    text::push_decimal(&mut out, bad as u64);
    match fault {
        Some(f) => {
            text::push_str(&mut out, " ");
            text::push_str(&mut out, f);
        },
        None => {},
    }
    assert(out@ =~= step_text(
        sites@,
        absmax@,
        bad as nat,
        match fault {
            Some(f) => Some(f@),
            None => None,
        },
    ));
    text::string_of(out.as_slice())
}

/// The logits' largest finite magnitude and how many are not finite.
pub fn logit_stats(logits: &[u32]) -> (r: (u32, usize))
    ensures
        r.0 == finite_absmax(logits@, logits@.len() as int),
        r.1 == count_where(logits@.len() as int, bad_at(logits@)),
{
    let (absmax, bad, _) = survey(logits);
    (absmax, bad)
}

/// The first of the largest of the first `n` logits, and its id: a NaN is never
/// the largest, and nothing but a value above minus infinity is taken.
pub open spec fn best_of(logits: Seq<u32>, n: int) -> (int, u32)
    decreases n,
{
    if n <= 0 {
        (0, 0xff80_0000)
    } else {
        let before = best_of(logits, n - 1);
        if bits::less(before.1, logits[n - 1]) {
            (n - 1, logits[n - 1])
        } else {
            before
        }
    }
}

/// The largest logit's id, the first of equals; a NaN is never the largest.
pub fn token(logits: &[u32]) -> (r: u32)
    requires
        logits@.len() <= u32::MAX,
    ensures
        r == best_of(logits@, logits@.len() as int).0,
{
    let mut id: u32 = 0;
    let mut best: u32 = 0xff80_0000;
    let mut i: usize = 0;
    while i < logits.len()
        invariant
            i <= logits@.len() <= u32::MAX,
            (id as int, best) == best_of(logits@, i as int),
        decreases logits@.len() - i,
    {
        if bits::is_less(best, logits[i]) {
            best = logits[i];
            id = i as u32;
        }
        i += 1;
    }
    id
}

/// Where every logit is 0 the token is id 0: a non-finite step cannot be told
/// from its logits.
pub proof fn law_zero_logits_name_id_zero(logits: Seq<u32>, n: int)
    requires
        0 <= n <= logits.len(),
        forall|i: int| 0 <= i < logits.len() ==> #[trigger] logits[i] == 0,
    ensures
        best_of(logits, n).0 == 0,
        n > 0 ==> best_of(logits, n).1 == 0,
    decreases n,
{
    if n > 0 {
        law_zero_logits_name_id_zero(logits, n - 1);
        assert(logits[n - 1] == 0);
    }
}

// ------------------------------------------------------------ what the probe finds

/// The token is the first of the largest logits: none is above it, and every one
/// before it is below. A NaN is never the largest.
pub proof fn law_the_token_is_the_first_largest(logits: Seq<u32>, n: int, i: int)
    requires
        0 <= i < n <= logits.len(),
        bits::less(0xff80_0000, logits[i]),
    ensures
        ({
            let w = best_of(logits, n).0;
            &&& 0 <= w < n
            &&& !bits::nan(logits[w])
            &&& best_of(logits, n).1 == logits[w]
            &&& !bits::less(logits[w], logits[i])
            &&& i < w ==> bits::less(logits[i], logits[w])
        }),
    decreases n,
{
    let b = best_of(logits, n - 1);
    if i < n - 1 {
        law_the_token_is_the_first_largest(logits, n - 1, i);
    } else {
        lemma_best_before(logits, n - 1);
    }
}

proof fn lemma_best_before(logits: Seq<u32>, n: int)
    requires
        0 <= n <= logits.len(),
    ensures
        ({
            let b = best_of(logits, n);
            &&& !bits::nan(b.1)
            &&& (b.0 == 0 && b.1 == 0xff80_0000) || (0 <= b.0 < n && b.1 == logits[b.0] && bits::less(
                0xff80_0000,
                b.1,
            ))
        }),
    decreases n,
{
    if n > 0 {
        lemma_best_before(logits, n - 1);
    }
}

/// A buffer's bad values are those that are no finite number, its first bad one the
/// least index of them, and its greatest magnitude is that of a finite value that
/// none is above, zero where there is none.
pub proof fn law_a_buffer_tells_its_values(b: Buf, name: Seq<char>, v: Seq<u32>, i: int)
    requires
        b.is_of(name, v),
        0 <= i < v.len(),
    ensures
        b.len == v.len(),
        b.bad == Set::new(|k: int| 0 <= k < v.len() && v[k] % 0x8000_0000 >= 0x7f80_0000).len(),
        b.first_bad matches Some(f) ==> f < v.len() && v[f as int] % 0x8000_0000 >= 0x7f80_0000 && (i
            < f ==> v[i] % 0x8000_0000 < 0x7f80_0000),
        b.first_bad is None ==> v[i] % 0x8000_0000 < 0x7f80_0000,
        v[i] % 0x8000_0000 < 0x7f80_0000 ==> v[i] % 0x8000_0000 <= b.absmax,
        b.absmax < 0x7f80_0000,
        b.absmax == 0 || exists|k: int|
            0 <= k < v.len() && (#[trigger] v[k]) % 0x8000_0000 == b.absmax,
{
    let n = v.len() as int;
    crate::count::law_a_count_is_a_sets_size(n, bad_at(v));
    let p = bad_at(v);
    assert(Set::new(|k: int| 0 <= k < n && p(k)) =~= Set::new(
        |k: int| 0 <= k < v.len() && v[k] % 0x8000_0000 >= 0x7f80_0000,
    )) by {
        assert forall|k: int| 0 <= k < n implies (#[trigger] p(k)) == (v[k] % 0x8000_0000
            >= 0x7f80_0000) by {
            bits::law_singles_order_as_their_values(v[k], 0);
        }
    }
    bits::law_singles_order_as_their_values(v[i], 0);
    lemma_first_bad_is(v, 0, i);
    lemma_absmax_bounds(v, n, i);
    lemma_absmax_is_one(v, n);
    if let Some(f) = b.first_bad {
        bits::law_singles_order_as_their_values(v[f as int], 0);
    }
}

pub proof fn lemma_first_bad_is(v: Seq<u32>, at: int, i: int)
    requires
        0 <= at <= i < v.len(),
    ensures
        match first_nonfinite(v, at) {
            Some(f) => at <= f < v.len() && !finite(v[f]) && (i < f ==> finite(v[i])),
            None => finite(v[i]),
        },
    decreases v.len() - at,
{
    if finite(v[at]) && at + 1 < v.len() {
        lemma_first_bad_is(
            v,
            at + 1,
            if i > at {
                i
            } else {
                at + 1
            },
        );
    } else {
        reveal_with_fuel(first_nonfinite, 2);
    }
}

proof fn lemma_absmax_bounds(v: Seq<u32>, n: int, i: int)
    requires
        0 <= i < n <= v.len(),
    ensures
        finite(v[i]) ==> v[i] % 0x8000_0000 <= finite_absmax(v, n),
    decreases n,
{
    if i < n - 1 {
        lemma_absmax_bounds(v, n - 1, i);
    }
}

proof fn lemma_absmax_is_one(v: Seq<u32>, n: int)
    requires
        0 <= n <= v.len(),
    ensures
        finite_absmax(v, n) < 0x7f80_0000,
        finite_absmax(v, n) == 0 || exists|k: int|
            0 <= k < n && (#[trigger] v[k]) % 0x8000_0000 == finite_absmax(v, n),
    decreases n,
{
    if n > 0 {
        lemma_absmax_is_one(v, n - 1);
        bits::law_singles_order_as_their_values(v[n - 1], 0);
        if finite(v[n - 1]) && magnitude(v[n - 1]) > finite_absmax(v, n - 1) {
            assert(v[n - 1] % 0x8000_0000 == finite_absmax(v, n));
        } else if finite_absmax(v, n) != 0 {
            let k = choose|k: int|
                0 <= k < n - 1 && (#[trigger] v[k]) % 0x8000_0000 == finite_absmax(v, n - 1);
            assert(v[k] % 0x8000_0000 == finite_absmax(v, n));
        }
    }
}

/// The buffers of a fault in launch order: the input first, then the router's
/// three and HC_PRE, two for each slot of the card with that slot's own stretch of
/// the values, and behind them the shared expert's, the combine, the streams and
/// the fold the next layer reads.
pub proof fn law_buffers_stand_in_launch_order(t: MoeTaps<'_>, s: int)
    requires
        0 <= s < t.places@.len(),
    ensures
        ({
            let all = launch_order(t);
            let before = slot_buffers(t, s);
            let after = slot_buffers(t, s + 1);
            let n = slot_buffers(t, t.places@.len() as int).len() as int;
            let slots = t.places@.len() as int;
            &&& all[0].name == "fold_in"@ && all[0].values == t.fold_in@
            &&& all[1].values == t.router_logits@ && all[2].values == t.router_probs@
            &&& all[3].values == t.router_weights@ && all[4].values == t.hc_pre@
            &&& all[n + 5].name == "shexp_h"@ && all[n + 5].values == t.shexp_h@
            &&& all[n + 6].values == t.shexp@
            &&& all[n + 7].name == "y"@ && all[n + 7].values == t.y@
            &&& all[n + 8].name == "streams"@ && all[n + 8].values == t.streams@
            &&& t.fold_out is None ==> all.len() == n + 9
            &&& t.fold_out matches Some(f) ==> all.len() == n + 10 && all[n + 9].values == f@
            &&& t.places@[s] == t.host ==> after == before
            &&& t.places@[s] != t.host ==> {
                &&& after.len() == before.len() + 2
                &&& after.take(before.len() as int) == before
                &&& after[before.len() as int].values == t.h@.subrange(
                    s * (t.h@.len() as int / slots),
                    (s + 1) * (t.h@.len() as int / slots),
                )
                &&& after[before.len() as int + 1].values == t.down@.subrange(
                    s * (t.down@.len() as int / slots),
                    (s + 1) * (t.down@.len() as int / slots),
                )
            }
        }),
{
    let before = slot_buffers(t, s);
    let after = slot_buffers(t, s + 1);
    if t.places@[s] != t.host {
        assert(after.take(before.len() as int) =~= before);
    }
}

/// The first bad buffer is the first in launch order that holds a bad value.
pub proof fn law_the_first_bad_buffer_is_first(b: Seq<Buf>, at: int, i: int)
    requires
        0 <= at <= i < b.len(),
    ensures
        match first_bad_buffer(b, at) {
            Some(f) => at <= f < b.len() && b[f].bad > 0 && (i < f ==> b[i].bad == 0),
            None => b[i].bad == 0,
        },
    decreases b.len() - at,
{
    if b[at].bad == 0 && at + 1 < b.len() {
        law_the_first_bad_buffer_is_first(
            b,
            at + 1,
            if i > at {
                i
            } else {
                at + 1
            },
        );
    } else {
        reveal_with_fuel(first_bad_buffer, 2);
    }
}

// ------------------------------------------------------------ what the lines say

/// The sites are told one after another with a blank between them, one alone by
/// itself.
pub proof fn law_sites_are_told_one_by_one(a: Seq<Site>, b: Seq<Site>, s: Site)
    requires
        a.len() > 0,
        b.len() > 0,
    ensures
        sites_text(seq![s]) == site_text(s),
        sites_text(seq![]).len() == 0,
        sites_text(a + b) == sites_text(a) + seq![' '] + sites_text(b),
    decreases b.len(),
{
    if b.len() == 1 {
        assert((a + b).drop_last() =~= a);
        assert((a + b).last() == b[0]);
        assert(sites_text(b) == site_text(b[0]));
    } else {
        law_sites_are_told_one_by_one(a, b.drop_last(), s);
        assert((a + b).drop_last() =~= a + b.drop_last());
        assert((a + b).last() == b.last());
        assert(sites_text(a + b) =~= sites_text(a) + seq![' '] + sites_text(b));
    }
}

/// A site is told by its layer and its piece in brackets, so that two sites are
/// never told alike.
pub proof fn law_a_site_is_told_by_layer_and_piece(s: Site, t: Site)
    ensures
        site_text(s)[0] == '(',
        site_text(s).last() == ')',
        site_text(s).subrange(1, 1 + decimal(s.layer as nat).len() as int) == decimal(s.layer as nat),
        s.piece == Piece::Moe ==> site_text(s) == seq!['('] + decimal(s.layer as nat) + ", "@ + "moe"@
            + seq![')'],
        s.piece == Piece::Attention ==> site_text(s) == seq!['('] + decimal(s.layer as nat) + ", "@
            + "attention"@ + seq![')'],
        s.piece == Piece::Engram ==> site_text(s) == seq!['('] + decimal(s.layer as nat) + ", "@
            + "engram"@ + seq![')'],
        s.piece == t.piece && site_text(s) == site_text(t) ==> s.layer == t.layer,
{
    let (d, e) = (decimal(s.layer as nat), decimal(t.layer as nat));
    assert(site_text(s).subrange(1, 1 + d.len() as int) =~= d);
    assert(site_text(t).subrange(1, 1 + e.len() as int) =~= e);
    text::law_number_reads_decimal(s.layer as nat, usize::MAX as nat);
    text::law_number_reads_decimal(t.layer as nat, usize::MAX as nat);
    if s.piece == t.piece && site_text(s) == site_text(t) {
        assert(d.len() == e.len());
        assert(d == e);
    }
}

/// A step with no site is fine; else its line says how many there are, the first,
/// then all of them, the logits' greatest magnitude and their bad values, and last
/// the fault where there is one.
pub proof fn law_a_steps_line_says_its_sites(
    sites: Seq<Site>,
    absmax: Seq<char>,
    bad: nat,
    fault: Seq<char>,
)
    ensures
        step_text(seq![], absmax, bad, Some(fault)) == "ok"@,
        sites.len() > 0 ==> {
            let t = step_text(sites, absmax, bad, None);
            &&& text::opens_with(
                t,
                "nonfinite_seams="@ + decimal(sites.len()) + " first="@ + site_text(sites[0]),
            )
            &&& text::ends_with(t, " logits absmax="@ + absmax + " nonfinite="@ + decimal(bad))
            &&& step_text(sites, absmax, bad, Some(fault)) == t + " "@ + fault
        },
{
    if sites.len() > 0 {
        let t = step_text(sites, absmax, bad, None);
        let a = "nonfinite_seams="@ + decimal(sites.len()) + " first="@ + site_text(sites[0]);
        let z = " logits absmax="@ + absmax + " nonfinite="@ + decimal(bad);
        reveal_strlit(") logits absmax=");
        reveal_strlit(" logits absmax=");
        assert(") logits absmax="@ =~= seq![')'] + " logits absmax="@);
        assert(t =~= a + (" ("@ + sites_text(sites) + seq![')'] + z));
        assert(t.take(a.len() as int) =~= a);
        assert(t.skip(t.len() - z.len()) =~= z);
        assert(step_text(sites, absmax, bad, Some(fault)) =~= t + " "@ + fault);
    }
}

/// A fault's line opens with its layer; each slot adds its expert, weight and place,
/// each buffer its name, magnitude and bad values.
pub proof fn law_a_faults_line_says_its_slots(
    f: MoeFault,
    weights: Seq<Seq<char>>,
    rms: Seq<char>,
    absmax: Seq<Seq<char>>,
    n: int,
)
    requires
        0 < n,
    ensures
        text::opens_with(
            fault_text(f, weights, rms, absmax),
            "layer "@ + decimal(f.layer as nat) + " moe: routing"@,
        ),
        text::ends_with(
            routing_text(f, weights, n),
            " ["@ + decimal(f.ids@[n - 1] as nat) + " w="@ + weights[n - 1] + " "@ + (if f.places@[n
                - 1] == f.host {
                "host"@
            } else {
                "card "@ + decimal(f.places@[n - 1] as nat)
            }) + "]"@,
        ),
        text::opens_with(routing_text(f, weights, n), routing_text(f, weights, n - 1)),
        text::ends_with(
            buffers_text(f.buffers@, absmax, n),
            "; "@ + f.buffers@[n - 1].name@ + " absmax="@ + absmax[n - 1] + " bad="@ + decimal(
                f.buffers@[n - 1].bad as nat,
            ),
        ),
        text::opens_with(
            buffers_text(f.buffers@, absmax, n),
            buffers_text(f.buffers@, absmax, n - 1),
        ),
{
    let t = fault_text(f, weights, rms, absmax);
    let a = "layer "@ + decimal(f.layer as nat) + " moe: routing"@;
    assert(t.take(a.len() as int) =~= a);
    let r = routing_text(f, weights, n);
    let q = routing_text(f, weights, n - 1);
    let one = " ["@ + decimal(f.ids@[n - 1] as nat) + " w="@ + weights[n - 1] + " "@ + place_text(
        f.places@[n - 1],
        f.host,
    ) + "]"@;
    assert(r =~= q + one);
    assert(r.take(q.len() as int) =~= q);
    assert(r.skip(r.len() - one.len()) =~= one);
    let b = buffers_text(f.buffers@, absmax, n);
    let c = buffers_text(f.buffers@, absmax, n - 1);
    let two = "; "@ + f.buffers@[n - 1].name@ + " absmax="@ + absmax[n - 1] + " bad="@ + decimal(
        f.buffers@[n - 1].bad as nat,
    );
    assert(b =~= c + two);
    assert(b.take(c.len() as int) =~= c);
    assert(b.skip(b.len() - two.len()) =~= two);
}

/// The first bad buffer is told with its bad values of all and where the first
/// stands, and the host's sum is named exactly where that buffer is the combine's.
pub proof fn law_the_first_bad_buffer_is_told(f: MoeFault, i: int, k: usize)
    requires
        first_bad_buffer(f.buffers@, 0) == Some(i),
        0 <= i < f.buffers@.len(),
        f.buffers@[i].first_bad == Some(k),
    ensures
        ({
            let b = f.buffers@[i];
            let told = "; first bad buffer "@ + b.name@ + " ("@ + decimal(b.bad as nat) + "/"@
                + decimal(b.len as nat) + " non-finite, first at Some("@ + decimal(k as nat) + "))"@;
            &&& text::opens_with(first_bad_text(f), told)
            &&& b.name@ != "y"@ ==> first_bad_text(f) == told
            &&& b.name@ == "y"@ ==> first_bad_text(f) == told + HOST_SUM@
        }),
{
    let b = f.buffers@[i];
    let told = "; first bad buffer "@ + b.name@ + " ("@ + decimal(b.bad as nat) + "/"@ + decimal(
        b.len as nat,
    ) + " non-finite, first at Some("@ + decimal(k as nat) + "))"@;
    reveal_strlit(" non-finite, first at Some(");
    reveal_strlit(" non-finite, first at ");
    reveal_strlit("Some(");
    reveal_strlit(")");
    reveal_strlit("))");
    assert(" non-finite, first at Some("@ =~= " non-finite, first at "@ + "Some("@);
    assert("))"@ =~= ")"@ + ")"@);
    let t = first_bad_text(f);
    if b.name@ == "y"@ {
        assert(t =~= told + HOST_SUM@);
    } else {
        assert(t =~= told);
    }
    assert(t.take(told.len() as int) =~= told);
}

/// A list is finite where none of its values is an infinity or a NaN.
pub proof fn law_a_finite_list_has_no_bad_value(v: Seq<u32>)
    ensures
        all_finite(v) <==> forall|i: int|
            0 <= i < v.len() ==> #[trigger] v[i] % 0x8000_0000 < 0x7f80_0000,
{
    assert forall|i: int| 0 <= i < v.len() && all_finite(v) implies #[trigger] v[i] % 0x8000_0000
        < 0x7f80_0000 by {
        lemma_first_bad_is(v, 0, i);
        bits::law_singles_order_as_their_values(v[i], 0);
    }
    if v.len() > 0 {
        lemma_first_bad_is(v, 0, 0);
        if let Some(f) = first_nonfinite(v, 0) {
            bits::law_singles_order_as_their_values(v[f], 0);
        }
    } else {
        assert(first_nonfinite(v, 0) is None);
    }
}

} // verus!
