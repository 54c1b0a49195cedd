use vstd::prelude::*;

verus! {

use crate::coder::{
    bit_of, bits_value, coder_range, decode_step, lemma_after_hob, lemma_after_sob,
    lemma_bits_value_bound, lemma_bits_value_cons, lemma_coder_marks, lemma_renorm_count, lemma_lookup_value, lemma_narrow, lemma_renorm,
    lemma_small_share_narrowable, lookup_value, narrow, narrowable, renorm, renorm_buffer,
    renorm_out, renorm_shifts, BitOrder, DecoderState, EncoderState,
};
use crate::decoder::decoder_start;
use crate::encoder::{encode_symbol, encoder_start};
use crate::range::RangeState;
use crate::symbol_model::SymbolModel;
use vstd::arithmetic::power2::lemma2_to64;

/// The 32 bits the decoder holds once it has read as far as an encoder that
/// has written `m` bits and holds `p` pending ones: the bit at `m`, then the
/// 31 bits after the pending ones.
pub open spec fn window(c: Seq<bool>, m: int, p: int) -> Seq<bool> {
    seq![c[m]] + c.subrange(m + p + 1, m + p + 32)
}

/// The stream `c` extends what the encoder wrote, `o`, far enough for the
/// decoder's window, and the `p` bits after `o[..]` are the complement of
/// the bit at `o.len()`, as the pending bits are when they are written.
pub open spec fn compat(c: Seq<bool>, o: Seq<bool>, p: nat) -> bool {
    &&& c.len() >= o.len() + p + 32
    &&& c.subrange(0, o.len() as int) == o
    &&& forall|i: int| 1 <= i <= p ==> #[trigger] c[o.len() + i] == !c[o.len() as int]
}

/// The decoder's window lies in the range.
pub open spec fn in_window(r: RangeState, c: Seq<bool>, m: int, p: int) -> bool {
    r.low <= bits_value(window(c, m, p as int)) <= r.high
}

proof fn lemma_window_split(c: Seq<bool>, m: int, p: int)
    requires
        0 <= m,
        0 <= p,
        m + p + 32 <= c.len(),
    ensures
        bits_value(window(c, m, p as int)) == bit_of(c[m]) * 0x8000_0000 + bits_value(
            c.subrange(m + p + 1, m + p + 32),
        ),
        bits_value(c.subrange(m + p + 1, m + p + 32)) < 0x8000_0000,
{
    lemma2_to64();
    lemma_bits_value_cons(c[m], c.subrange(m + p + 1, m + p + 32));
    lemma_bits_value_bound(c.subrange(m + p + 1, m + p + 32));
}

proof fn lemma_window_hob(c: Seq<bool>, m: int, p: int)
    requires
        0 <= m,
        0 <= p,
        m + p + 33 <= c.len(),
    ensures
        bits_value(window(c, m + p + 1, 0)) == 2 * bits_value(c.subrange(m + p + 1, m + p + 32))
            + bit_of(c[m + p + 32]),
{
    let w = c.subrange(m + p + 1, m + p + 33);
    assert(window(c, m + p + 1, 0) =~= w);
    assert(w.drop_last() =~= c.subrange(m + p + 1, m + p + 32));
}

proof fn lemma_window_sob(c: Seq<bool>, m: int, p: int)
    requires
        0 <= m,
        0 <= p,
        m + p + 33 <= c.len(),
    ensures
        bits_value(window(c, m, p as int)) == bit_of(c[m]) * 0x8000_0000 + bit_of(c[m + p + 1]) * 0x4000_0000
            + bits_value(c.subrange(m + p + 2, m + p + 32)),
        bits_value(window(c, m, p + 1)) == bit_of(c[m]) * 0x8000_0000 + 2 * bits_value(
            c.subrange(m + p + 2, m + p + 32),
        ) + bit_of(c[m + p + 32]),
        bits_value(c.subrange(m + p + 2, m + p + 32)) < 0x4000_0000,
{
    lemma2_to64();
    let u = c.subrange(m + p + 2, m + p + 32);
    lemma_bits_value_bound(u);
    lemma_window_split(c, m, p);
    assert(c.subrange(m + p + 1, m + p + 32) =~= seq![c[m + p + 1]] + u);
    lemma_bits_value_cons(c[m + p + 1], u);
    let t = c.subrange(m + p + 2, m + p + 33);
    assert(window(c, m, p + 1) =~= seq![c[m]] + t);
    lemma_bits_value_cons(c[m], t);
    assert(t.drop_last() =~= u);
}

/// Reading along with the encoder: from the window of an encoder state,
/// renormalising the decoder's buffer gives the window of the encoder's
/// state after the same renormalisation, and the decoder has read one bit
/// per shift.
pub proof fn lemma_renorm_forward(r: RangeState, c: Seq<bool>, m: int, p: nat)
    requires
        coder_range(r),
        0 <= m,
        m + p + 32 + renorm_shifts(r) <= c.len(),
    ensures
        renorm_buffer(r, bits_value(window(c, m, p as int)) as int, c, m + p + 32) == bits_value(
            window(c, m + renorm_out(r, p).1.len(), renorm_out(r, p).0 as int),
        ),
        renorm_out(r, p).1.len() + renorm_out(r, p).0 == p + renorm_shifts(r),
    decreases 0x1_0000_0000 - r.width(),
{
    lemma_coder_marks();
    if r.hob_match() {
        lemma_after_hob(r);
        lemma_window_split(c, m, p as int);
        lemma_window_hob(c, m, p as int);
        let buf = bits_value(window(c, m, p as int)) as int;
        assert(buf % 0x8000_0000 == bits_value(c.subrange(m + p + 1, m + p + 32)));
        lemma_renorm_forward(r.after_hob(), c, m + p + 1, 0);
        let b = r.high >= r.half();
        let rest = renorm_out(r.after_hob(), 0);
        assert((seq![b] + Seq::new(p, |i: int| !b) + rest.1).len() == 1 + p + rest.1.len());
    } else if r.in_middle() {
        lemma_after_sob(r);
        lemma_window_sob(c, m, p as int);
        let buf = bits_value(window(c, m, p as int)) as int;
        let u = bits_value(c.subrange(m + p + 2, m + p + 32)) as int;
        if c[m] {
            assert(buf / 0x8000_0000 == 1);
        } else {
            assert(buf / 0x8000_0000 == 0);
        }
        assert(buf % 0x4000_0000 == u);
        lemma_renorm_forward(r.after_sob(), c, m, p + 1);
    }
}

/// Looking back from the bits that end up written: if the stream agrees
/// with what the encoder has written after renormalising and the decoder's
/// window then lies in the range, the same holds before renormalising.
pub proof fn lemma_renorm_backward(r: RangeState, c: Seq<bool>, o: Seq<bool>, p: nat)
    requires
        coder_range(r),
        compat(c, o + renorm_out(r, p).1, renorm_out(r, p).0),
        in_window(renorm(r), c, (o + renorm_out(r, p).1).len() as int, renorm_out(r, p).0 as int),
    ensures
        compat(c, o, p),
        in_window(r, c, o.len() as int, p as int),
    decreases 0x1_0000_0000 - r.width(),
{
    lemma_coder_marks();
    let m = o.len() as int;
    if r.hob_match() {
        lemma_after_hob(r);
        let b = r.high >= r.half();
        let o2 = o + (seq![b] + Seq::new(p, |i: int| !b));
        let rest = renorm_out(r.after_hob(), 0);
        assert(o + renorm_out(r, p).1 =~= o2 + rest.1);
        lemma_renorm_backward(r.after_hob(), c, o2, 0);
        assert(c.subrange(0, o2.len() as int) == o2);
        assert forall|j: int| 0 <= j < o2.len() implies c[j] == o2[j] by {
            assert(c.subrange(0, o2.len() as int)[j] == c[j]);
        }
        assert(c[m] == b) by {
            assert(o2[m] == b);
        }
        assert(c.subrange(0, m) =~= o) by {
            assert forall|j: int| 0 <= j < m implies c.subrange(0, m)[j] == o[j] by {
                assert(o2[j] == o[j]);
            }
        }
        assert forall|i: int| 1 <= i <= p implies #[trigger] c[o.len() + i] == !c[o.len() as int] by {
            assert(o2[m + i] == !b);
        }
        lemma_window_split(c, m, p as int);
        lemma_window_hob(c, m, p as int);
    } else if r.in_middle() {
        lemma_after_sob(r);
        lemma_renorm_backward(r.after_sob(), c, o, p + 1);
        assert(c[m + (p + 1)] == !c[m]);
        lemma_window_sob(c, m, p as int);
    }
}

proof fn lemma_bits_value_zeros(n: nat)
    ensures
        bits_value(Seq::new(n, |i: int| false)) == 0,
    decreases n,
{
    if n > 0 {
        assert(Seq::new(n, |i: int| false).drop_last() =~= Seq::new((n - 1) as nat, |i: int| false));
        lemma_bits_value_zeros((n - 1) as nat);
    }
}

/// The encoder's state and everything it has written after encoding the
/// first `k` symbols, each under its own model, from a fresh start.
pub open spec fn encode_prefix<T: Eq, M: SymbolModel<T>>(models: Seq<M>, syms: Seq<T>, k: nat) -> (
    EncoderState,
    Seq<bool>,
)
    decreases k,
{
    if k == 0 {
        (encoder_start(), Seq::empty())
    } else {
        let prev = encode_prefix(models, syms, (k - 1) as nat);
        let step = encode_symbol(prev.0, models[k - 1], syms[k - 1]);
        (step.0, prev.1 + step.1)
    }
}

/// The whole stream: the bits written while encoding every symbol, then
/// the bits that `finish` writes.
pub open spec fn encode_stream<T: Eq, M: SymbolModel<T>>(models: Seq<M>, syms: Seq<T>) -> Seq<bool> {
    let e = encode_prefix(models, syms, syms.len());
    e.1 + crate::coder::finish_bits(e.0.pending)
}

/// Symbol `k` can be encoded after the ones before it: its model is
/// consistent, holds it, and its interval leaves a non-empty range.
pub open spec fn step_encodable<T: Eq, M: SymbolModel<T>>(models: Seq<M>, syms: Seq<T>, k: int) -> bool {
    let e = encode_prefix(models, syms, k as nat).0;
    let m = models[k];
    &&& m.model_wf()
    &&& m.model_contains(syms[k])
    &&& narrowable(e.range, m.model_interval(syms[k]).0, m.model_interval(syms[k]).1, m.model_total() as int)
}

/// One model per symbol, and every symbol can be encoded in turn.
pub open spec fn encodable<T: Eq, M: SymbolModel<T>>(models: Seq<M>, syms: Seq<T>) -> bool {
    &&& models.len() == syms.len()
    &&& forall|k: int| 0 <= k < syms.len() ==> #[trigger] step_encodable(models, syms, k)
}

/// The decoder's state, how far it has read, and the symbols it has
/// produced after decoding `k` symbols of `input`, each under its model,
/// from a fresh start.
pub open spec fn decode_prefix<T: Eq, M: SymbolModel<T>>(models: Seq<M>, input: Seq<bool>, k: nat) -> (
    DecoderState,
    int,
    Seq<T>,
)
    decreases k,
{
    if k == 0 {
        (decoder_start(), 0, Seq::empty())
    } else {
        let prev = decode_prefix(models, input, (k - 1) as nat);
        let step = decode_step(prev.0, models[k - 1], input, prev.1, BitOrder::Msb);
        (step.0, step.1, prev.2.push(step.2))
    }
}

/// The encoder's range stays a renormalised 32-bit range while every symbol
/// so far could be encoded.
pub proof fn lemma_encoder_ranges<T: Eq, M: SymbolModel<T>>(models: Seq<M>, syms: Seq<T>, k: nat)
    requires
        k <= syms.len(),
        forall|j: int| 0 <= j < k ==> #[trigger] step_encodable(models, syms, j),
    ensures
        coder_range(encode_prefix(models, syms, k).0.range),
        encode_prefix(models, syms, k).0.range.renormalized(),
    decreases k,
{
    lemma_coder_marks();
    if k > 0 {
        let j = (k - 1) as int;
        lemma_encoder_ranges(models, syms, j as nat);
        assert(step_encodable(models, syms, j));
        let e = encode_prefix(models, syms, j as nat).0;
        let iv = models[j].model_interval(syms[j]);
        lemma_narrow(e.range, iv.0, iv.1, models[j].model_total() as int);
        lemma_renorm(narrow(e.range, iv.0, iv.1, models[j].model_total() as int));
    }
}

/// Looking back from the whole stream: after any number of symbols the
/// stream extends what the encoder has written, its pending bits come out as
/// complements, and the decoder's window lies in the encoder's range (and in
/// the narrowed range of the next symbol).
pub proof fn lemma_backward<T: Eq, M: SymbolModel<T>>(models: Seq<M>, syms: Seq<T>, k: nat)
    requires
        encodable(models, syms),
        k <= syms.len(),
    ensures
        ({
            let (e, o) = encode_prefix(models, syms, k);
            let c = encode_stream(models, syms);
            &&& compat(c, o, e.pending)
            &&& in_window(e.range, c, o.len() as int, e.pending as int)
            &&& k < syms.len() ==> in_window(
                narrow(
                    e.range,
                    models[k as int].model_interval(syms[k as int]).0,
                    models[k as int].model_interval(syms[k as int]).1,
                    models[k as int].model_total() as int,
                ),
                c,
                o.len() as int,
                e.pending as int,
            )
        }),
    decreases syms.len() - k,
{
    lemma_coder_marks();
    lemma_encoder_ranges(models, syms, k);
    let (e, o) = encode_prefix(models, syms, k);
    let c = encode_stream(models, syms);
    let m = o.len() as int;
    if k == syms.len() {
        let p = e.pending;
        assert(c.subrange(0, m) =~= o);
        let z = c.subrange(m + p + 1, m + p + 32);
        assert(z =~= Seq::new(31, |i: int| false));
        lemma_bits_value_zeros(31);
        lemma_bits_value_cons(true, z);
        lemma2_to64();
    } else {
        lemma_backward(models, syms, k + 1);
        assert(step_encodable(models, syms, k as int));
        let iv = models[k as int].model_interval(syms[k as int]);
        let total = models[k as int].model_total() as int;
        let n = narrow(e.range, iv.0, iv.1, total);
        lemma_narrow(e.range, iv.0, iv.1, total);
        assert(encode_prefix(models, syms, k + 1).1 == o + renorm_out(n, e.pending).1);
        lemma_renorm_backward(n, c, o, e.pending);
    }
}

/// The decoder follows the encoder: after decoding the first `k` symbols of
/// the encoder's stream it has produced exactly those symbols, its range is
/// the encoder's range after encoding them, and its buffer and position are
/// the window the encoder's state determines.
pub proof fn lemma_forward<T: Eq, M: SymbolModel<T>>(models: Seq<M>, syms: Seq<T>, k: nat)
    requires
        encodable(models, syms),
        k <= syms.len(),
    ensures
        ({
            let (e, o) = encode_prefix(models, syms, k);
            let c = encode_stream(models, syms);
            let (d, pos, out) = decode_prefix(models, c, k);
            &&& out == syms.take(k as int)
            &&& d.range == e.range
            &&& k > 0 ==> d.initialized && d.buffer == bits_value(window(c, o.len() as int, e.pending as int))
                && pos == o.len() + e.pending + 32
            &&& k == 0 ==> d == decoder_start() && pos == 0
        }),
    decreases k,
{
    lemma_coder_marks();
    if k > 0 {
        let j = (k - 1) as nat;
        lemma_forward(models, syms, j);
        lemma_backward(models, syms, j);
        lemma_backward(models, syms, k);
        lemma_encoder_ranges(models, syms, j);
        assert(step_encodable(models, syms, j as int));
        let c = encode_stream(models, syms);
        let (e, o) = encode_prefix(models, syms, j);
        let (d, pos, out) = decode_prefix(models, c, j);
        let model = models[j as int];
        let sym = syms[j as int];
        model.lemma_model_laws();
        let iv = model.model_interval(sym);
        let total = model.model_total() as int;
        let n = narrow(e.range, iv.0, iv.1, total);
        lemma_narrow(e.range, iv.0, iv.1, total);
        let m = o.len() as int;
        let buf0 = if d.initialized {
            d.buffer
        } else {
            bits_value(c.subrange(pos, pos + 32)) as int
        };
        if j == 0 {
            assert(window(c, 0, 0) =~= c.subrange(0, 32));
        }
        assert(buf0 == bits_value(window(c, m, e.pending as int)));
        let w = e.range.width();
        let off = buf0 - e.range.low;
        lemma_lookup_value(w, total, off, iv.0, iv.1);
        let v = lookup_value(d.range, buf0, total);
        assert(model.model_lookup(v) == (sym, iv.0, iv.1));
        lemma_renorm_count(n, e.pending);
        lemma_renorm_forward(n, c, m, e.pending);
        assert(out.push(sym) =~= syms.take(k as int));
    }
}

/// Decoding is the inverse of encoding: decoding the stream that the encoder
/// writes for a sequence of symbols, with the same sequence of models, gives
/// back exactly those symbols, reads exactly the whole stream, and never
/// needs a bit beyond its end.
pub proof fn lemma_lossless<T: Eq, M: SymbolModel<T>>(models: Seq<M>, syms: Seq<T>)
    requires
        encodable(models, syms),
    ensures
        decode_prefix(models, encode_stream(models, syms), syms.len()).2 == syms,
        syms.len() > 0 ==> decode_prefix(models, encode_stream(models, syms), syms.len()).1
            == encode_stream(models, syms).len(),
        forall|k: nat| k <= syms.len() ==> #[trigger] decode_prefix(models, encode_stream(models, syms), k).1
            <= encode_stream(models, syms).len(),
{
    let c = encode_stream(models, syms);
    let n = syms.len();
    lemma_forward(models, syms, n);
    assert(syms.take(n as int) =~= syms);
    lemma_backward(models, syms, n);
    assert forall|k: nat| k <= syms.len() implies #[trigger] decode_prefix(models, c, k).1 <= c.len() by {
        lemma_forward(models, syms, k);
        lemma_backward(models, syms, k);
    }
}

/// The encoder's bit count covers the pending bits once, when they are
/// deferred: after any number of symbols it is the number of bits written
/// plus the pending ones, and after `finish` it is the length of the whole
/// stream.
pub proof fn lemma_bits_written<T: Eq, M: SymbolModel<T>>(models: Seq<M>, syms: Seq<T>, k: nat)
    requires
        encodable(models, syms),
        k <= syms.len(),
    ensures
        encode_prefix(models, syms, k).0.bits_written == encode_prefix(models, syms, k).1.len()
            + encode_prefix(models, syms, k).0.pending,
        k == syms.len() ==> crate::encoder::finish_state(encode_prefix(models, syms, k).0).bits_written
            == encode_stream(models, syms).len(),
    decreases k,
{
    if k > 0 {
        let j = (k - 1) as nat;
        lemma_bits_written(models, syms, j);
        lemma_encoder_ranges(models, syms, j);
        assert(step_encodable(models, syms, j as int));
        let e = encode_prefix(models, syms, j).0;
        let iv = models[j as int].model_interval(syms[j as int]);
        let total = models[j as int].model_total() as int;
        lemma_narrow(e.range, iv.0, iv.1, total);
        lemma_renorm_count(narrow(e.range, iv.0, iv.1, total), e.pending);
    }
    let e = encode_prefix(models, syms, k).0;
    assert(crate::coder::finish_bits(e.pending).len() == e.pending + 32);
}

/// Symbols with a non-empty share of a model whose total is at most 2^30
/// (a normalised count model stays below a million) can always be encoded,
/// whatever came before them.
pub proof fn lemma_small_models_encodable<T: Eq, M: SymbolModel<T>>(models: Seq<M>, syms: Seq<T>)
    requires
        models.len() == syms.len(),
        forall|k: int|
            0 <= k < syms.len() ==> {
                &&& (#[trigger] models[k]).model_wf()
                &&& models[k].model_contains(syms[k])
                &&& models[k].model_interval(syms[k]).0 < models[k].model_interval(syms[k]).1
                &&& models[k].model_total() <= 0x4000_0000
            },
    ensures
        encodable(models, syms),
{
    lemma_small_prefix_encodable(models, syms, syms.len());
}

proof fn lemma_small_prefix_encodable<T: Eq, M: SymbolModel<T>>(models: Seq<M>, syms: Seq<T>, k: nat)
    requires
        models.len() == syms.len(),
        k <= syms.len(),
        forall|k: int|
            0 <= k < syms.len() ==> {
                &&& (#[trigger] models[k]).model_wf()
                &&& models[k].model_contains(syms[k])
                &&& models[k].model_interval(syms[k]).0 < models[k].model_interval(syms[k]).1
                &&& models[k].model_total() <= 0x4000_0000
            },
    ensures
        forall|j: int| 0 <= j < k ==> #[trigger] step_encodable(models, syms, j),
    decreases k,
{
    if k > 0 {
        let j = (k - 1) as int;
        lemma_small_prefix_encodable(models, syms, j as nat);
        lemma_encoder_ranges(models, syms, j as nat);
        let m = models[j];
        m.lemma_model_laws();
        let iv = m.model_interval(syms[j]);
        lemma_small_share_narrowable(
            encode_prefix(models, syms, j as nat).0.range,
            iv.0,
            iv.1,
            m.model_total() as int,
        );
        assert(step_encodable(models, syms, j));
    }
}

/// Renormalising the decoder's buffer reads only the bits at `pos` and after,
/// one per shift.
pub proof fn lemma_renorm_buffer_local(r: RangeState, buf: int, a: Seq<bool>, b: Seq<bool>, pos: int)
    requires
        forall|i: int| pos <= i < pos + renorm_shifts(r) ==> a[i] == b[i],
    ensures
        renorm_buffer(r, buf, a, pos) == renorm_buffer(r, buf, b, pos),
    decreases 0x1_0000_0000 - r.width(),
{
    lemma_coder_marks();
    if coder_range(r) && r.hob_match() {
        lemma_after_hob(r);
        assert(a[pos] == b[pos]);
        lemma_renorm_buffer_local(r.after_hob(), 2 * (buf % 0x8000_0000) + bit_of(a[pos]), a, b, pos + 1);
    } else if coder_range(r) && r.in_middle() {
        lemma_after_sob(r);
        assert(a[pos] == b[pos]);
        lemma_renorm_buffer_local(
            r.after_sob(),
            (buf / 0x8000_0000) * 0x8000_0000 + 2 * (buf % 0x4000_0000) + bit_of(a[pos]),
            a,
            b,
            pos + 1,
        );
    }
}

/// A decoding step reads no bit beyond the position it ends at, so bits
/// after that position do not change it.
pub proof fn lemma_decode_step_local<T: Eq, M: SymbolModel<T>>(
    d: DecoderState,
    m: M,
    a: Seq<bool>,
    b: Seq<bool>,
    pos: int,
    order: BitOrder,
)
    requires
        0 <= pos,
        decode_step(d, m, a, pos, order).1 <= a.len() <= b.len(),
        b.subrange(0, a.len() as int) == a,
    ensures
        decode_step(d, m, b, pos, order) == decode_step(d, m, a, pos, order),
{
    assert forall|i: int| 0 <= i < a.len() implies a[i] == b[i] by {
        assert(b.subrange(0, a.len() as int)[i] == b[i]);
    }
    let at = if d.initialized {
        pos
    } else {
        pos + 32
    };
    if !d.initialized {
        assert(a.subrange(pos, pos + 32) =~= b.subrange(pos, pos + 32));
    }
    let buffer = if d.initialized {
        d.buffer
    } else {
        crate::coder::word_value(a.subrange(pos, pos + 32), order) as int
    };
    let total = m.model_total() as int;
    let (sym, start, end) = m.model_lookup(lookup_value(d.range, buffer, total));
    let n = narrow(d.range, start, end, total);
    lemma_renorm_buffer_local(n, buffer, a, b, at);
}

proof fn lemma_decode_prefix_extended<T: Eq, M: SymbolModel<T>>(
    models: Seq<M>,
    syms: Seq<T>,
    b: Seq<bool>,
    k: nat,
)
    requires
        encodable(models, syms),
        k <= syms.len(),
        encode_stream(models, syms).len() <= b.len(),
        b.subrange(0, encode_stream(models, syms).len() as int) == encode_stream(models, syms),
    ensures
        decode_prefix(models, b, k) == decode_prefix(models, encode_stream(models, syms), k),
    decreases k,
{
    if k > 0 {
        let j = (k - 1) as nat;
        let c = encode_stream(models, syms);
        lemma_decode_prefix_extended(models, syms, b, j);
        lemma_lossless(models, syms);
        lemma_forward(models, syms, j);
        let prev = decode_prefix(models, c, j);
        assert(decode_prefix(models, c, k).1 <= c.len());
        lemma_decode_step_local(prev.0, models[j as int], c, b, prev.1, BitOrder::Msb);
    }
}

/// Losslessness does not depend on what follows the stream: decoding the
/// encoder's stream followed by any bits gives back the symbols and stops
/// exactly at the end of the encoder's stream.
pub proof fn lemma_lossless_padded<T: Eq, M: SymbolModel<T>>(models: Seq<M>, syms: Seq<T>, pad: Seq<bool>)
    requires
        encodable(models, syms),
    ensures
        decode_prefix(models, encode_stream(models, syms) + pad, syms.len()).2 == syms,
        syms.len() > 0 ==> decode_prefix(models, encode_stream(models, syms) + pad, syms.len()).1
            == encode_stream(models, syms).len(),
{
    let c = encode_stream(models, syms);
    assert((c + pad).subrange(0, c.len() as int) =~= c);
    lemma_decode_prefix_extended(models, syms, c + pad, syms.len());
    lemma_lossless(models, syms);
}

} // verus!
