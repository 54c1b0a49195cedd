use vstd::prelude::*;

verus! {

use crate::coder::{
    coder_range, encode_step, finish_bits, lemma_after_hob, lemma_after_sob, lemma_coder_marks,
    lemma_narrow, lemma_renorm_count, lemma_renorm_out_straddling, lemma_renorm_shifts_at_most_32,
    narrow, narrowable, renorm, renorm_out,
    renorm_shifts, EncoderState,
};
use crate::range::{Range, RangeState};
use crate::symbol_model::SymbolModel;

/// An arithmetic encoder over a 32-bit range; the bits it produces are
/// appended to a caller's vector.
#[derive(Debug)]
pub struct Encoder {
    range: Range,
    pending: u32,
    finished: bool,
    bits_written: u64,
}

impl View for Encoder {
    type V = EncoderState;

    closed spec fn view(&self) -> EncoderState {
        EncoderState {
            range: self.range@,
            pending: self.pending as nat,
            bits_written: self.bits_written as nat,
            finished: self.finished,
        }
    }
}

/// The state of a fresh encoder: the full range, nothing written.
pub open spec fn encoder_start() -> EncoderState {
    EncoderState {
        range: RangeState { bw: 32, low: 0, high: 0xffff_ffff },
        pending: 0,
        bits_written: 0,
        finished: false,
    }
}

/// Encoding `s` with model `m`: the next state and the bits written.
pub open spec fn encode_symbol<T: Eq, M: SymbolModel<T>>(e: EncoderState, m: M, s: T) -> (
    EncoderState,
    Seq<bool>,
) {
    encode_step(e, m.model_interval(s).0, m.model_interval(s).1, m.model_total() as int)
}

/// `s` can be encoded with `m` from state `e`: the encoder is open, the model
/// holds the symbol, its interval leaves a non-empty range, and the counters
/// stay within their machine types.
pub open spec fn can_encode<T: Eq, M: SymbolModel<T>>(e: EncoderState, m: M, s: T) -> bool {
    &&& !e.finished
    &&& m.model_wf()
    &&& m.model_contains(s)
    &&& narrowable(e.range, m.model_interval(s).0, m.model_interval(s).1, m.model_total() as int)
    &&& encode_symbol(e, m, s).0.pending <= u32::MAX
    &&& encode_symbol(e, m, s).0.bits_written <= u64::MAX
}

/// One symbol adds at most 32 to each counter, so an open encoder can take
/// any encodable symbol while its pending count is at most `u32::MAX - 32` and
/// its bit count at most `u64::MAX - 32`.
pub proof fn lemma_encode_counters<T: Eq, M: SymbolModel<T>>(e: EncoderState, m: M, s: T)
    ensures
        encode_symbol(e, m, s).0.pending <= e.pending + 32,
        e.bits_written <= encode_symbol(e, m, s).0.bits_written <= e.bits_written + 32,
{
    let n = narrow(e.range, m.model_interval(s).0, m.model_interval(s).1, m.model_total() as int);
    lemma_renorm_count(n, e.pending);
    lemma_renorm_shifts_at_most_32(n);
}

/// The state after `finish`: the pending bits were counted when they were
/// deferred, so only the closing one and its 31 zeros are added.
pub open spec fn finish_state(e: EncoderState) -> EncoderState {
    EncoderState { bits_written: e.bits_written + 32, finished: true, ..e }
}

impl Encoder {
    /// The encoder's range is the coder's 32-bit range, renormalised.
    pub open spec fn wf(&self) -> bool {
        &&& coder_range(self@.range)
        &&& self@.range.renormalized()
    }

    pub fn new() -> (r: Self)
        ensures
            r.wf(),
            r@ == encoder_start(),
    {
        proof {
            lemma_coder_marks();
        }
        Self { range: Range::new(32), pending: 0, finished: false, bits_written: 0 }
    }

    /// Encodes `s` under model `m`, appending the bits that become certain to
    /// `output`.
    pub fn encode<T: Eq, M: SymbolModel<T>>(&mut self, s: &T, m: &M, output: &mut Vec<bool>)
        requires
            old(self).wf(),
            can_encode(old(self)@, *m, *s),
        ensures
            final(self).wf(),
            final(self)@.range.renormalized(),
            final(self)@ == encode_symbol(old(self)@, *m, *s).0,
            final(output)@ == old(output)@ + encode_symbol(old(self)@, *m, *s).1,
    {
        proof {
            m.lemma_model_laws();
            lemma_coder_marks();
        }
        let (int_start, int_end) = m.interval(s);
        let total = m.total() as u64;
        let range_width = self.range.width();
        let low = self.range.low();
        proof {
            assert(range_width * int_start <= u64::MAX) by (nonlinear_arith)
                requires
                    range_width <= 0x1_0000_0000,
                    int_start <= 0xffff_ffff,
            ;
            assert(range_width * int_end <= u64::MAX) by (nonlinear_arith)
                requires
                    range_width <= 0x1_0000_0000,
                    int_end <= 0xffff_ffff,
            ;
            lemma_narrow(self.range@, int_start as int, int_end as int, total as int);
        }
        let new_low = low + (range_width * int_start as u64) / total;
        let new_high = low + (range_width * int_end as u64) / total - 1;
        self.range.reduce(new_high, new_low);
        let ghost n = self.range@;
        let ghost out0 = output@;
        let ghost p0 = self.pending as nat;
        let ghost bw0 = self.bits_written as nat;
        assert(n == narrow(old(self)@.range, int_start as int, int_end as int, total as int));
        if self.range.hob_match() {
            proof {
                lemma_after_hob(n);
            }
            let is_one = self.range.shift_hob();
            output.push(is_one);
            self.bits_written = self.bits_written + 1;
            let mut i: u32 = 0;
            while i < self.pending
                invariant
                    self.range@ == n.after_hob(),
                    self.range.wf(),
                    i <= self.pending,
                    self.pending == p0,
                    output@ == out0 + seq![is_one] + Seq::new(i as nat, |j: int| !is_one),
                decreases self.pending - i,
            {
                output.push(!is_one);
                i = i + 1;
                assert(output@ == out0 + seq![is_one] + Seq::new(i as nat, |j: int| !is_one));
            }
            self.pending = 0;
            assert(output@ + renorm_out(self.range@, 0).1 == out0 + renorm_out(n, p0).1);
            while self.range.hob_match()
                invariant
                    self.range.wf(),
                    coder_range(self.range@),
                    self.pending == 0,
                    self.finished == old(self).finished,
                    renorm(self.range@) == renorm(n),
                    renorm_out(self.range@, 0).0 == renorm_out(n, p0).0,
                    output@ + renorm_out(self.range@, 0).1 == out0 + renorm_out(n, p0).1,
                    self.bits_written + renorm_shifts(self.range@) == bw0 + renorm_shifts(n),
                    bw0 + renorm_shifts(n) <= u64::MAX,
                decreases renorm_shifts(self.range@),
            {
                let ghost cur = self.range@;
                proof {
                    lemma_after_hob(cur);
                }
                let b = self.range.shift_hob();
                output.push(b);
                self.bits_written = self.bits_written + 1;
                assert(output@ + renorm_out(self.range@, 0).1 == out0 + renorm_out(n, p0).1);
            }
        }
        while self.range.in_middle()
            invariant
                self.range.wf(),
                coder_range(self.range@),
                !self.range@.hob_match(),
                self.finished == old(self).finished,
                renorm(self.range@) == renorm(n),
                renorm_out(self.range@, self.pending as nat).0 == renorm_out(n, p0).0,
                output@ + renorm_out(self.range@, self.pending as nat).1 == out0 + renorm_out(n, p0).1,
                self.bits_written + renorm_shifts(self.range@) == bw0 + renorm_shifts(n),
                bw0 + renorm_shifts(n) <= u64::MAX,
                renorm_out(n, p0).0 <= u32::MAX,
            decreases renorm_shifts(self.range@),
        {
            let ghost cur = self.range@;
            proof {
                lemma_after_sob(cur);
                lemma_renorm_out_straddling(cur, self.pending as nat);
            }
            self.range.shift_sob();
            self.pending = self.pending + 1;
            self.bits_written = self.bits_written + 1;
        }
        proof {
            lemma_renorm_out_straddling(self.range@, self.pending as nat);
        }
    }

    pub fn high(&self) -> (r: u64)
        ensures
            r == self@.range.high,
    {
        self.range.high()
    }

    pub fn low(&self) -> (r: u64)
        ensures
            r == self@.range.low,
    {
        self.range.low()
    }

    /// Closes the stream: writes a one and then the pending bits and 31 more
    /// as zeros, which together stand for the midpoint of the range. The
    /// pending bits were counted when they were deferred, so they are not
    /// counted again.
    pub fn finish(&mut self, output: &mut Vec<bool>)
        requires
            old(self).wf(),
            old(self)@.bits_written + 32 <= u64::MAX,
        ensures
            final(self).wf(),
            final(self)@ == finish_state(old(self)@),
            final(output)@ == old(output)@ + finish_bits(old(self)@.pending),
    {
        let ghost out0 = output@;
        output.push(true);
        self.bits_written = self.bits_written + 1;
        let mut i: u32 = 0;
        while i < self.pending
            invariant
                i <= self.pending,
                self.bits_written == old(self)@.bits_written + 1,
                output@ == out0 + seq![true] + Seq::new(i as nat, |j: int| false),
                self.range == old(self).range,
                self.pending == old(self).pending,
                self.finished == old(self).finished,
            decreases self.pending - i,
        {
            output.push(false);
            i = i + 1;
            assert(output@ == out0 + seq![true] + Seq::new(i as nat, |j: int| false));
        }
        let ghost p = self.pending as nat;
        let mut k: u32 = 0;
        while k < 31
            invariant
                k <= 31,
                p == old(self)@.pending,
                self.bits_written == old(self)@.bits_written + 1 + k,
                old(self)@.bits_written + 32 <= u64::MAX,
                output@ == out0 + seq![true] + Seq::new(p + k as nat, |j: int| false),
                self.range == old(self).range,
                self.pending == old(self).pending,
                self.finished == old(self).finished,
            decreases 31 - k,
        {
            output.push(false);
            self.bits_written = self.bits_written + 1;
            k = k + 1;
            assert(output@ == out0 + seq![true] + Seq::new(p + k as nat, |j: int| false));
        }
        self.finished = true;
    }

    /// How many second order shifts await the bit that resolves them.
    pub fn pending(&self) -> (r: u32)
        ensures
            r == self@.pending,
    {
        self.pending
    }

    pub fn bits_written(&self) -> (r: u64)
        ensures
            r == self@.bits_written,
    {
        self.bits_written
    }
}

} // verus!
