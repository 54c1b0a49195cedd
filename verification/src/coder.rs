use vstd::prelude::*;

verus! {

use crate::range::{RangeState, full_of, half_of, quarter_of};
use crate::symbol_model::SymbolModel;
use vstd::arithmetic::power2::{
    lemma2_to64, lemma_pow2_adds, lemma_pow2_strictly_increases, lemma_pow2_unfold, pow2,
};

/// The register marks of the coder's 32-bit range.
pub proof fn lemma_coder_marks()
    ensures
        full_of(32) == 0x1_0000_0000,
        half_of(32) == 0x8000_0000,
        quarter_of(32) == 0x4000_0000,
{
    lemma2_to64();
}

/// A well-formed range of the 32-bit register that the coder uses.
pub open spec fn coder_range(r: RangeState) -> bool {
    r.wf() && r.bw == 32
}

pub open spec fn bit_of(b: bool) -> int {
    if b {
        1
    } else {
        0
    }
}

/// The unsigned integer whose binary digits, most significant first, are `s`.
pub open spec fn bits_value(s: Seq<bool>) -> nat
    decreases s.len(),
{
    if s.len() == 0 {
        0
    } else {
        (2 * bits_value(s.drop_last()) + bit_of(s.last())) as nat
    }
}

/// The range narrowed to the share `[start, end)` of `total`.
pub open spec fn narrow(r: RangeState, start: int, end: int, total: int) -> RangeState {
    RangeState {
        bw: r.bw,
        low: r.low + r.width() * start / total,
        high: r.low + r.width() * end / total - 1,
    }
}

/// The share `[start, end)` of `total` leaves a non-empty sub-range of `r`.
pub open spec fn narrowable(r: RangeState, start: int, end: int, total: int) -> bool {
    &&& 0 <= start
    &&& total > 0
    &&& r.width() * start / total < r.width() * end / total <= r.width()
}

/// The range once every applicable shift has been made.
pub open spec fn renorm(r: RangeState) -> RangeState
    decreases 0x1_0000_0000 - r.width(),
{
    if coder_range(r) && r.hob_match() {
        proof {
            lemma_coder_marks();
        }
        renorm(r.after_hob())
    } else if coder_range(r) && r.in_middle() {
        proof {
            lemma_coder_marks();
        }
        renorm(r.after_sob())
    } else {
        r
    }
}

/// How many shifts renormalising the range makes; each one moves one bit.
pub open spec fn renorm_shifts(r: RangeState) -> nat
    decreases 0x1_0000_0000 - r.width(),
{
    if coder_range(r) && r.hob_match() {
        proof {
            lemma_coder_marks();
        }
        renorm_shifts(r.after_hob()) + 1
    } else if coder_range(r) && r.in_middle() {
        proof {
            lemma_coder_marks();
        }
        renorm_shifts(r.after_sob()) + 1
    } else {
        0
    }
}

/// What the encoder writes while renormalising, and its pending count
/// afterwards: a resolved high order bit goes out followed by the pending
/// bits, each its complement; a second order shift adds a pending bit.
pub open spec fn renorm_out(r: RangeState, pending: nat) -> (nat, Seq<bool>)
    decreases 0x1_0000_0000 - r.width(),
{
    if coder_range(r) && r.hob_match() {
        proof {
            lemma_coder_marks();
        }
        let b = r.high >= r.half();
        let rest = renorm_out(r.after_hob(), 0);
        (rest.0, seq![b] + Seq::new(pending, |i: int| !b) + rest.1)
    } else if coder_range(r) && r.in_middle() {
        proof {
            lemma_coder_marks();
        }
        renorm_out(r.after_sob(), pending + 1)
    } else {
        (pending, Seq::empty())
    }
}

/// The decoder's 32-bit buffer after renormalising, reading one bit of
/// `input` from `pos` on per shift: a high order shift drops the top bit of
/// the buffer, a second order shift its second bit.
pub open spec fn renorm_buffer(r: RangeState, buf: int, input: Seq<bool>, pos: int) -> int
    decreases 0x1_0000_0000 - r.width(),
{
    if coder_range(r) && r.hob_match() {
        proof {
            lemma_coder_marks();
        }
        renorm_buffer(r.after_hob(), 2 * (buf % 0x8000_0000) + bit_of(input[pos]), input, pos + 1)
    } else if coder_range(r) && r.in_middle() {
        proof {
            lemma_coder_marks();
        }
        renorm_buffer(
            r.after_sob(),
            (buf / 0x8000_0000) * 0x8000_0000 + 2 * (buf % 0x4000_0000) + bit_of(input[pos]),
            input,
            pos + 1,
        )
    } else {
        buf
    }
}

/// The state of an [`crate::encoder::Encoder`].
pub struct EncoderState {
    pub range: RangeState,
    pub pending: nat,
    pub bits_written: nat,
    pub finished: bool,
}

/// The encoder's state after encoding the share `[start, end)` of `total`,
/// and the bits it writes meanwhile.
pub open spec fn encode_step(e: EncoderState, start: int, end: int, total: int) -> (EncoderState, Seq<bool>) {
    let n = narrow(e.range, start, end, total);
    let (pending, out) = renorm_out(n, e.pending);
    (
        EncoderState {
            range: renorm(n),
            pending: pending,
            bits_written: e.bits_written + renorm_shifts(n),
            finished: e.finished,
        },
        out,
    )
}

/// The bits that close a stream: a one, the pending bits as zeros, and 31
/// zeros, which together stand for the midpoint of the final range.
pub open spec fn finish_bits(pending: nat) -> Seq<bool> {
    seq![true] + Seq::new(pending + 31, |i: int| false)
}

/// The state of a [`crate::decoder::Decoder`].
pub struct DecoderState {
    pub range: RangeState,
    pub buffer: int,
    pub initialized: bool,
}

/// The order in which a multi-bit read places the bits it reads: the first
/// bit read becomes the most significant one, or the least significant one.
#[derive(Clone, Copy, Debug, PartialEq, Eq)]
pub enum BitOrder {
    Msb,
    Lsb,
}

/// The 32-bit word a read of `bits` assembles in the given order.
pub open spec fn word_value(bits: Seq<bool>, order: BitOrder) -> nat {
    match order {
        BitOrder::Msb => bits_value(bits),
        BitOrder::Lsb => bits_value(bits.reverse()),
    }
}

/// The value in `[0, total)` that a buffer stands for in the range.
pub open spec fn lookup_value(r: RangeState, buffer: int, total: int) -> int {
    ((buffer - r.low + 1) * total - 1) / r.width()
}

/// Decoding one symbol with model `m` from `input`, read from `pos` on: the
/// decoder's next state, the position after the bits it reads, and the
/// symbol. A fresh decoder first fills its buffer with a 32-bit read
/// assembled in `order`; later bits are shifted in one at a time.
pub open spec fn decode_step<T: Eq, M: SymbolModel<T>>(
    d: DecoderState,
    m: M,
    input: Seq<bool>,
    pos: int,
    order: BitOrder,
) -> (DecoderState, int, T) {
    let buffer = if d.initialized {
        d.buffer
    } else {
        word_value(input.subrange(pos, pos + 32), order) as int
    };
    let at = if d.initialized {
        pos
    } else {
        pos + 32
    };
    let total = m.model_total() as int;
    let (sym, start, end) = m.model_lookup(lookup_value(d.range, buffer, total));
    let n = narrow(d.range, start, end, total);
    (
        DecoderState { range: renorm(n), buffer: renorm_buffer(n, buffer, input, at), initialized: true },
        at + renorm_shifts(n),
        sym,
    )
}

/// A high order shift keeps a coder range well formed and doubles its width.
pub proof fn lemma_after_hob(r: RangeState)
    requires
        coder_range(r),
        r.hob_match(),
    ensures
        coder_range(r.after_hob()),
        r.after_hob().width() == 2 * r.width(),
{
    lemma_coder_marks();
}

/// A second order shift of a range that straddles the midpoint keeps it
/// well formed and straddling, and doubles its width.
pub proof fn lemma_after_sob(r: RangeState)
    requires
        coder_range(r),
        r.in_middle(),
        !r.hob_match(),
    ensures
        coder_range(r.after_sob()),
        !r.after_sob().hob_match(),
        r.after_sob().width() == 2 * r.width(),
{
    lemma_coder_marks();
}

/// Renormalising ends in a renormalised coder range.
pub proof fn lemma_renorm(r: RangeState)
    requires
        coder_range(r),
    ensures
        coder_range(renorm(r)),
        renorm(r).renormalized(),
    decreases 0x1_0000_0000 - r.width(),
{
    lemma_coder_marks();
    if r.hob_match() {
        lemma_after_hob(r);
        lemma_renorm(r.after_hob());
    } else if r.in_middle() {
        lemma_after_sob(r);
        lemma_renorm(r.after_sob());
    }
}

/// Once the range straddles the midpoint, renormalising writes nothing and
/// only adds pending bits.
pub proof fn lemma_renorm_out_straddling(r: RangeState, pending: nat)
    requires
        coder_range(r),
        !r.hob_match(),
    ensures
        renorm_out(r, pending) == (pending + renorm_shifts(r), Seq::<bool>::empty()),
    decreases 0x1_0000_0000 - r.width(),
{
    lemma_coder_marks();
    if r.in_middle() {
        lemma_after_sob(r);
        lemma_renorm_out_straddling(r.after_sob(), pending + 1);
    }
}

/// Narrowing by a narrowable share gives a coder range inside the old one.
pub proof fn lemma_narrow(r: RangeState, start: int, end: int, total: int)
    requires
        coder_range(r),
        narrowable(r, start, end, total),
    ensures
        coder_range(narrow(r, start, end, total)),
        r.low <= narrow(r, start, end, total).low,
        narrow(r, start, end, total).high <= r.high,
{
    let w = r.width();
    assert(w * start >= 0) by (nonlinear_arith)
        requires
            w > 0,
            start >= 0,
    ;
    assert(w * start / total >= 0) by (nonlinear_arith)
        requires
            w * start >= 0,
            total > 0,
    ;
}

/// A value in `[0, 2^n)` has `n` binary digits.
pub proof fn lemma_bits_value_bound(s: Seq<bool>)
    ensures
        bits_value(s) < pow2(s.len()),
    decreases s.len(),
{
    if s.len() > 0 {
        lemma_bits_value_bound(s.drop_last());
        lemma_pow2_unfold(s.len());
    } else {
        lemma2_to64();
    }
}

/// The value a buffer stands for picks out exactly the share whose narrowed
/// range holds the buffer: `start <= v < end` if and only if the offset of
/// the buffer lies in `[width * start / total, width * end / total)`.
pub proof fn lemma_lookup_value(w: int, total: int, off: int, start: int, end: int)
    requires
        w > 0,
        total > 0,
        0 <= off < w,
    ensures
        0 <= ((off + 1) * total - 1) / w < total,
        (start <= ((off + 1) * total - 1) / w) <==> (w * start / total <= off),
        (((off + 1) * total - 1) / w < end) <==> (off < w * end / total),
{
    let x = (off + 1) * total - 1;
    let v = x / w;
    assert(x >= 0) by (nonlinear_arith)
        requires
            off >= 0,
            total > 0,
            x == (off + 1) * total - 1,
    ;
    assert(x < total * w) by (nonlinear_arith)
        requires
            off < w,
            total > 0,
            x == (off + 1) * total - 1,
    ;
    lemma_floor_le(x, w, 0);
    assert(0 * w == 0);
    lemma_floor_lt(x, w, total);
    lemma_floor_le(x, w, start);
    lemma_floor_lt(x, w, end);
    lemma_floor_le(w * start, total, off + 1);
    lemma_floor_lt(w * start, total, off + 1);
    lemma_floor_le(w * end, total, off + 1);
    lemma_floor_lt(w * end, total, off + 1);
    assert(start * w <= x <==> w * start < (off + 1) * total) by (nonlinear_arith)
        requires
            x == (off + 1) * total - 1,
    ;
    assert(end * w <= x <==> w * end < (off + 1) * total) by (nonlinear_arith)
        requires
            x == (off + 1) * total - 1,
    ;
}

/// `b <= a / c` exactly when `b * c <= a`.
pub proof fn lemma_floor_le(a: int, c: int, b: int)
    requires
        c > 0,
    ensures
        (b <= a / c) <==> (b * c <= a),
{
    let q = a / c;
    let r = a % c;
    assert(a == c * q + r && 0 <= r < c) by {
        vstd::arithmetic::div_mod::lemma_fundamental_div_mod(a, c);
    }
    assert((b <= q) <==> (b * c <= a)) by (nonlinear_arith)
        requires
            a == c * q + r,
            0 <= r < c,
            c > 0,
    ;
}

/// `a / c < b` exactly when `a < b * c`.
pub proof fn lemma_floor_lt(a: int, c: int, b: int)
    requires
        c > 0,
    ensures
        (a / c < b) <==> (a < b * c),
{
    lemma_floor_le(a, c, b);
}

/// A buffer inside the range stays inside it across a high order shift.
pub proof fn lemma_buffer_after_hob(r: RangeState, buf: int, bit: int)
    requires
        coder_range(r),
        r.hob_match(),
        r.low <= buf <= r.high,
        0 <= bit <= 1,
    ensures
        r.after_hob().low <= 2 * (buf % 0x8000_0000) + bit <= r.after_hob().high,
{
    lemma_coder_marks();
    if buf >= 0x8000_0000 {
        assert(buf % 0x8000_0000 == buf - 0x8000_0000);
    } else {
        assert(buf % 0x8000_0000 == buf);
    }
}

/// A buffer inside a range that straddles the midpoint within the middle
/// quarters stays inside it across a second order shift.
pub proof fn lemma_buffer_after_sob(r: RangeState, buf: int, bit: int)
    requires
        coder_range(r),
        r.in_middle(),
        !r.hob_match(),
        r.low <= buf <= r.high,
        0 <= bit <= 1,
    ensures
        r.after_sob().low <= (buf / 0x8000_0000) * 0x8000_0000 + 2 * (buf % 0x4000_0000) + bit
            <= r.after_sob().high,
{
    lemma_coder_marks();
    if buf >= 0x8000_0000 {
        assert(buf / 0x8000_0000 == 1);
        assert(buf % 0x4000_0000 == buf - 0x8000_0000);
    } else {
        assert(buf / 0x8000_0000 == 0);
        assert(buf % 0x4000_0000 == buf - 0x4000_0000);
    }
}

/// A renormalised range is wider than a quarter of the register, so any
/// non-empty share of a total of at most 2^30 leaves a non-empty range.
pub proof fn lemma_small_share_narrowable(r: RangeState, start: int, end: int, total: int)
    requires
        coder_range(r),
        r.renormalized(),
        0 <= start < end <= total <= 0x4000_0000,
    ensures
        narrowable(r, start, end, total),
{
    lemma_coder_marks();
    let w = r.width();
    assert(w > 0x4000_0000);
    assert(w * end - w * start >= w) by (nonlinear_arith)
        requires
            w > 0,
            end - start >= 1,
    ;
    assert(w * start >= 0) by (nonlinear_arith)
        requires
            w > 0,
            start >= 0,
    ;
    lemma_floor_le(w * start, total, w * start / total);
    lemma_floor_le(w * end, total, w * start / total + 1);
    assert((w * start / total) * total <= w * start);
    assert((w * start / total + 1) * total <= w * end) by (nonlinear_arith)
        requires
            (w * start / total) * total <= w * start,
            w * end - w * start >= w,
            w > total,
    ;
    lemma_floor_lt(w * end, total, w + 1);
    assert(w * end < (w + 1) * total) by (nonlinear_arith)
        requires
            end <= total,
            w > 0,
            total > 0,
    ;
}

/// Appending bits: the value of `a + b` is that of `a` shifted left past `b`,
/// plus that of `b`.
pub proof fn lemma_bits_value_append(a: Seq<bool>, b: Seq<bool>)
    ensures
        bits_value(a + b) == bits_value(a) * pow2(b.len()) + bits_value(b),
    decreases b.len(),
{
    if b.len() == 0 {
        assert(a + b =~= a);
        lemma2_to64();
        assert(bits_value(b) == 0);
        assert(bits_value(a + b) == bits_value(a) * pow2(b.len()) + bits_value(b));
    } else {
        let b1 = b.drop_last();
        assert((a + b).drop_last() =~= a + b1);
        assert((a + b).last() == b.last());
        lemma_bits_value_append(a, b1);
        lemma_pow2_unfold(b.len());
        let va = bits_value(a) as int;
        let p1 = pow2(b1.len()) as int;
        let vb1 = bits_value(b1) as int;
        let x = bit_of(b.last());
        assert(bits_value(a + b) == 2 * bits_value(a + b1) + x);
        assert(bits_value(b) == 2 * vb1 + x);
        assert(pow2(b.len()) == 2 * p1);
        assert(2 * (va * p1) == va * (2 * p1)) by (nonlinear_arith);
        assert(bits_value(a + b) == va * pow2(b.len()) + bits_value(b));
    }
}

/// The value of a leading bit followed by `t`.
pub proof fn lemma_bits_value_cons(x: bool, t: Seq<bool>)
    ensures
        bits_value(seq![x] + t) == bit_of(x) * pow2(t.len()) + bits_value(t),
{
    lemma_bits_value_append(seq![x], t);
    assert(seq![x].drop_last() =~= Seq::<bool>::empty());
    assert(bits_value(Seq::<bool>::empty()) == 0);
    assert(bits_value(seq![x]) == bit_of(x));
    lemma2_to64();
}

/// One step of a least-significant-first read: the word read so far sits in
/// the top `i` bits; shifting it down one place and putting the new bit on
/// top keeps the word read so far, one bit longer, in the top `i + 1` bits.
pub proof fn lemma_lsb_step(prev: Seq<bool>, x: bool)
    requires
        prev.len() < 32,
    ensures
        (bits_value(prev.reverse()) * pow2((32 - prev.len()) as nat)) / 2 + bit_of(x) * 0x8000_0000
            == bits_value(prev.push(x).reverse()) * pow2((32 - prev.len() - 1) as nat),
{
    let i = prev.len();
    let v = bits_value(prev.reverse()) as int;
    let q = pow2((31 - i) as nat) as int;
    lemma_pow2_unfold((32 - i) as nat);
    assert(prev.push(x).reverse() =~= seq![x] + prev.reverse());
    lemma_bits_value_cons(x, prev.reverse());
    lemma_pow2_adds(i, (31 - i) as nat);
    lemma2_to64();
    assert((v * (2 * q)) / 2 == v * q) by (nonlinear_arith);
    let xi = bit_of(x) * pow2(i) as int;
    assert((xi + v) * q == bit_of(x) * (pow2(i) * q) + v * q) by (nonlinear_arith)
        requires
            xi == bit_of(x) * pow2(i) as int,
    ;
}

/// Renormalising moves every shift into either a written bit or a pending
/// one.
pub proof fn lemma_renorm_count(r: RangeState, p: nat)
    ensures
        renorm_out(r, p).1.len() + renorm_out(r, p).0 == p + renorm_shifts(r),
    decreases 0x1_0000_0000 - r.width(),
{
    lemma_coder_marks();
    if coder_range(r) && r.hob_match() {
        lemma_after_hob(r);
        lemma_renorm_count(r.after_hob(), 0);
        let b = r.high >= r.half();
        let rest = renorm_out(r.after_hob(), 0);
        assert((seq![b] + Seq::new(p, |i: int| !b) + rest.1).len() == 1 + p + rest.1.len());
    } else if coder_range(r) && r.in_middle() {
        lemma_after_sob(r);
        lemma_renorm_count(r.after_sob(), p + 1);
    }
}

proof fn lemma_renorm_shifts_width(r: RangeState)
    requires
        coder_range(r),
    ensures
        pow2(renorm_shifts(r)) * r.width() <= 0x1_0000_0000,
    decreases 0x1_0000_0000 - r.width(),
{
    lemma_coder_marks();
    lemma2_to64();
    if r.hob_match() || r.in_middle() {
        let next = if r.hob_match() {
            r.after_hob()
        } else {
            r.after_sob()
        };
        if r.hob_match() {
            lemma_after_hob(r);
        } else {
            lemma_after_sob(r);
        }
        lemma_renorm_shifts_width(next);
        let s = renorm_shifts(next);
        lemma_pow2_unfold(s + 1);
        assert(renorm_shifts(r) == s + 1);
        let p = pow2(s) as int;
        let w = r.width();
        assert(next.width() == 2 * w);
        assert(p * next.width() <= 0x1_0000_0000);
        assert(pow2(s + 1) == 2 * p);
        assert((2 * p) * w == p * (2 * w)) by (nonlinear_arith);
        assert(pow2(renorm_shifts(r)) * r.width() <= 0x1_0000_0000);
    } else {
        assert(renorm_shifts(r) == 0);
        assert(pow2(0) * r.width() <= 0x1_0000_0000);
    }
}

/// Each shift doubles the width of a range of at most 2^32 values, so
/// renormalising makes at most 32 shifts.
pub proof fn lemma_renorm_shifts_at_most_32(r: RangeState)
    ensures
        renorm_shifts(r) <= 32,
{
    if coder_range(r) {
        lemma_renorm_shifts_width(r);
        let s = renorm_shifts(r);
        if s > 32 {
            lemma_pow2_strictly_increases(32, s);
            lemma2_to64();
            let p = pow2(s) as int;
            let w = r.width();
            assert(p * w >= p) by (nonlinear_arith)
                requires
                    w >= 1,
                    p >= 0,
            ;
        }
    }
}

/// The two orders of a multi-bit read: most significant first, the first
/// bit read weighs `2^(n-1)`; least significant first, it weighs 1 and the
/// rest of the word is shifted up one place.
pub proof fn lemma_word_orders(bits: Seq<bool>)
    requires
        bits.len() > 0,
    ensures
        word_value(bits, BitOrder::Msb) == bit_of(bits[0]) * pow2((bits.len() - 1) as nat) + word_value(
            bits.drop_first(),
            BitOrder::Msb,
        ),
        word_value(bits, BitOrder::Lsb) == bit_of(bits[0]) + 2 * word_value(bits.drop_first(), BitOrder::Lsb),
{
    assert(bits =~= seq![bits[0]] + bits.drop_first());
    lemma_bits_value_cons(bits[0], bits.drop_first());
    assert(bits.reverse().drop_last() =~= bits.drop_first().reverse());
    assert(bits.reverse().last() == bits[0]);
}

/// The value a buffer stands for is the largest share boundary at or below
/// it: `v <= lookup_value` exactly when the range's offset for `v`,
/// `width * v / total`, is at most the buffer's offset.
pub proof fn lemma_lookup_value_is_floor(r: RangeState, buffer: int, total: int, v: int)
    requires
        r.width() > 0,
        total > 0,
        r.low <= buffer <= r.high,
    ensures
        0 <= lookup_value(r, buffer, total) < total,
        (v <= lookup_value(r, buffer, total)) <==> (r.width() * v / total <= buffer - r.low),
{
    lemma_lookup_value(r.width(), total, buffer - r.low, v, v);
}

/// Narrowing and decoding agree: a buffer in the range lies in the range
/// narrowed to the share `[start, end)` exactly when the value it stands for
/// lies in `[start, end)`.
pub proof fn lemma_narrow_lookup(r: RangeState, start: int, end: int, total: int, buffer: int)
    requires
        r.width() > 0,
        total > 0,
        r.low <= buffer <= r.high,
    ensures
        (narrow(r, start, end, total).low <= buffer <= narrow(r, start, end, total).high) <==> (start
            <= lookup_value(r, buffer, total) < end),
{
    lemma_lookup_value(r.width(), total, buffer - r.low, start, end);
}

} // verus!
