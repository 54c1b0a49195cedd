use vstd::prelude::*;

verus! {

use crate::coder::{
    bits_value, coder_range, decode_step, lemma_after_hob, lemma_after_sob,
    lemma_bits_value_bound, lemma_buffer_after_hob, lemma_buffer_after_sob, lemma_coder_marks,
    lemma_lookup_value, lemma_lsb_step, lookup_value, narrow, renorm, renorm_buffer, renorm_shifts,
    lemma_renorm_shifts_at_most_32, word_value, BitOrder, DecoderState,
};
use crate::range::{Range, RangeState};
use crate::symbol_model::SymbolModel;
use vstd::arithmetic::power2::{lemma_pow2_strictly_increases, lemma2_to64, pow2};

/// An arithmetic decoder over a 32-bit range, reading the bits of a stream
/// from a slice.
#[derive(Debug)]
pub struct Decoder {
    range: Range,
    buffer: u32,
    initialized: bool,
}

impl View for Decoder {
    type V = DecoderState;

    closed spec fn view(&self) -> DecoderState {
        DecoderState { range: self.range@, buffer: self.buffer as int, initialized: self.initialized }
    }
}

/// The state of a fresh decoder: the full range, no bits read.
pub open spec fn decoder_start() -> DecoderState {
    DecoderState { range: RangeState { bw: 32, low: 0, high: 0xffff_ffff }, buffer: 0, initialized: false }
}

/// A decoding step reads at most 32 bits after filling the buffer, so a
/// caller meets `decode`'s demand on the input by leaving 64 bits after the
/// position, or 32 once the decoder has started.
pub proof fn lemma_decode_reads<T: Eq, M: SymbolModel<T>>(
    d: DecoderState,
    m: M,
    input: Seq<bool>,
    pos: int,
    order: BitOrder,
)
    ensures
        pos <= decode_step(d, m, input, pos, order).1 <= pos + (if d.initialized {
            32int
        } else {
            64int
        }),
{
    let buffer = if d.initialized {
        d.buffer
    } else {
        word_value(input.subrange(pos, pos + 32), order) as int
    };
    let total = m.model_total() as int;
    let (sym, start, end) = m.model_lookup(lookup_value(d.range, buffer, total));
    lemma_renorm_shifts_at_most_32(narrow(d.range, start, end, total));
}

proof fn lemma_shift_in(x: u32, b: u32)
    requires
        b <= 1,
    ensures
        (x << 1u32) | b == 2 * (x % 0x8000_0000) + b,
{
    assert((x << 1u32) | b == 2 * (x % 0x8000_0000) + b) by (bit_vector)
        requires
            b <= 1,
    ;
}

proof fn lemma_shift_in_keep_top(x: u32, b: u32)
    requires
        b <= 1,
    ensures
        (x & 0x8000_0000u32) != 0 ==> ((x << 1u32) | b) | 0x8000_0000u32 == (x / 0x8000_0000) * 0x8000_0000
            + 2 * (x % 0x4000_0000) + b,
        (x & 0x8000_0000u32) == 0 ==> ((x << 1u32) | b) & !0x8000_0000u32 == (x / 0x8000_0000)
            * 0x8000_0000 + 2 * (x % 0x4000_0000) + b,
{
    assert((x & 0x8000_0000u32) != 0 ==> ((x << 1u32) | b) | 0x8000_0000u32 == (x / 0x8000_0000)
        * 0x8000_0000 + 2 * (x % 0x4000_0000) + b) by (bit_vector)
        requires
            b <= 1,
    ;
    assert((x & 0x8000_0000u32) == 0 ==> ((x << 1u32) | b) & !0x8000_0000u32 == (x / 0x8000_0000)
        * 0x8000_0000 + 2 * (x % 0x4000_0000) + b) by (bit_vector)
        requires
            b <= 1,
    ;
}

impl Decoder {
    /// The range is the coder's 32-bit range, renormalised; once bits have
    /// been read the buffer lies inside it, and before that the decoder is
    /// fresh.
    pub open spec fn wf(&self) -> bool {
        &&& coder_range(self@.range)
        &&& self@.range.renormalized()
        &&& self@.initialized ==> self@.range.low <= self@.buffer <= self@.range.high
        &&& !self@.initialized ==> self@ == decoder_start()
    }

    pub fn new() -> (r: Self)
        ensures
            r.wf(),
            r@ == decoder_start(),
    {
        proof {
            lemma_coder_marks();
        }
        Self { range: Range::new(32), buffer: 0x0, initialized: false }
    }

    /// Decodes one symbol under model `m`, reading bits of `input` from
    /// `*pos` on and advancing `*pos` past them. The first call reads the
    /// 32 bits that fill the buffer, assembled in `order`.
    pub fn decode<'a, T: Eq, M: SymbolModel<T>>(
        &mut self,
        m: &'a M,
        input: &[bool],
        pos: &mut usize,
        order: BitOrder,
    ) -> (r: &'a T)
        requires
            old(self).wf(),
            m.model_wf(),
            m.model_total() > 0,
            decode_step(old(self)@, *m, input@, *old(pos) as int, order).1 <= input.len(),
        ensures
            final(self).wf(),
            final(self)@.range.low <= final(self)@.buffer <= final(self)@.range.high,
            final(self)@.range.renormalized(),
            final(self)@ == decode_step(old(self)@, *m, input@, *old(pos) as int, order).0,
            *final(pos) as int == decode_step(old(self)@, *m, input@, *old(pos) as int, order).1,
            *r == decode_step(old(self)@, *m, input@, *old(pos) as int, order).2,
    {
        proof {
            m.lemma_model_laws();
            lemma_coder_marks();
        }
        let ghost pos0 = *pos as int;
        if !self.initialized {
            assert(pos0 + 32 <= input.len());
            let bits = match order {
                BitOrder::Msb => Self::read_word_msb(input, pos),
                BitOrder::Lsb => Self::read_word_lsb(input, pos),
            };
            self.buffer = bits;
            self.initialized = true;
        }
        let ghost at0 = *pos as int;
        let ghost buf0 = self.buffer as int;
        let range_width = self.range.width();
        let low = self.range.low();
        let total = m.total() as u64;
        let offset = self.buffer as u64 - low;
        proof {
            lemma_lookup_value(range_width as int, total as int, offset as int, 0, 0);
            assert((offset + 1) * total >= 1) by (nonlinear_arith)
                requires
                    offset >= 0,
                    total >= 1,
            ;
            assert((offset + 1) * total <= u64::MAX) by (nonlinear_arith)
                requires
                    offset + 1 <= 0x1_0000_0000,
                    total <= 0xffff_ffff,
            ;
        }
        let v = (((offset + 1) * total - 1) / range_width) as u32;
        assert(v as int == lookup_value(old(self)@.range, buf0, total as int));
        let (result, int_start, int_end) = m.lookup(v);
        proof {
            lemma_lookup_value(range_width as int, total as int, offset as int, int_start as int, int_end as int);
            assert(range_width * int_start <= u64::MAX) by (nonlinear_arith)
                requires
                    range_width <= 0x1_0000_0000,
                    int_start <= 0xffff_ffff,
            ;
            assert(range_width * int_end <= u64::MAX) by (nonlinear_arith)
                requires
                    range_width <= 0x1_0000_0000,
                    int_end <= 0xffff_ffff,
            ;
            assert(range_width * int_end / (total as int) <= range_width) by {
                crate::coder::lemma_floor_lt(range_width * int_end, total as int, range_width + 1);
                assert(range_width * int_end < (range_width + 1) * total) by (nonlinear_arith)
                    requires
                        int_end <= total,
                        range_width >= 0,
                        total > 0,
                ;
            }
        }
        let new_low = low + (range_width * int_start as u64) / total;
        let new_high = low + (range_width * int_end as u64) / total - 1;
        self.range.reduce(new_high, new_low);
        let ghost n = self.range@;
        assert(n == narrow(old(self)@.range, int_start as int, int_end as int, total as int));
        while self.range.hob_match()
            invariant
                self.range.wf(),
                coder_range(self.range@),
                self.initialized,
                self.range@.low <= self.buffer <= self.range@.high,
                renorm(self.range@) == renorm(n),
                renorm_shifts(n) == (*pos - at0) + renorm_shifts(self.range@),
                renorm_buffer(n, buf0, input@, at0) == renorm_buffer(self.range@, self.buffer as int, input@, *pos as int),
                *pos + renorm_shifts(self.range@) <= input.len(),
                *pos >= at0,
            decreases renorm_shifts(self.range@),
        {
            let ghost cur = self.range@;
            proof {
                lemma_after_hob(cur);
            }
            let is_one = self.range.shift_hob();
            proof {
                lemma_coder_marks();
                assert(is_one == (self.buffer >= 0x8000_0000));
            }
            let b: u32 = if input[*pos] {
                1
            } else {
                0
            };
            proof {
                lemma_shift_in(self.buffer, b);
                lemma_buffer_after_hob(cur, self.buffer as int, b as int);
            }
            self.buffer = (self.buffer << 1u32) | b;
            *pos = *pos + 1;
        }
        while self.range.in_middle()
            invariant
                self.range.wf(),
                coder_range(self.range@),
                !self.range@.hob_match(),
                self.initialized,
                self.range@.low <= self.buffer <= self.range@.high,
                renorm(self.range@) == renorm(n),
                renorm_shifts(n) == (*pos - at0) + renorm_shifts(self.range@),
                renorm_buffer(n, buf0, input@, at0) == renorm_buffer(self.range@, self.buffer as int, input@, *pos as int),
                *pos + renorm_shifts(self.range@) <= input.len(),
                *pos >= at0,
            decreases renorm_shifts(self.range@),
        {
            let ghost cur = self.range@;
            proof {
                lemma_after_sob(cur);
            }
            self.range.shift_sob();
            let buffer_hob_is_one = (self.buffer & 0x8000_0000u32) != 0;
            let b: u32 = if input[*pos] {
                1
            } else {
                0
            };
            proof {
                lemma_shift_in_keep_top(self.buffer, b);
                lemma_buffer_after_sob(cur, self.buffer as int, b as int);
            }
            self.buffer = (self.buffer << 1u32) | b;
            if buffer_hob_is_one {
                self.buffer = self.buffer | 0x8000_0000u32;
            } else {
                self.buffer = self.buffer & !0x8000_0000u32;
            }
            *pos = *pos + 1;
        }
        result
    }

    /// Reads 32 bits, the first one read becoming the most significant.
    fn read_word_msb(input: &[bool], pos: &mut usize) -> (r: u32)
        requires
            *old(pos) + 32 <= input.len(),
        ensures
            *final(pos) == *old(pos) + 32,
            r == word_value(input@.subrange(*old(pos) as int, *old(pos) + 32), BitOrder::Msb),
    {
        let ghost pos0 = *pos as int;
        let mut bits: u32 = 0;
        let mut i: usize = 0;
        while i < 32
            invariant
                0 <= i <= 32,
                0 <= pos0,
                *pos as int == pos0 + i,
                pos0 + 32 <= input.len(),
                bits as int == bits_value(input@.subrange(pos0, pos0 + i)),
            decreases 32 - i,
        {
            let ghost prev = input@.subrange(pos0, pos0 + i);
            proof {
                lemma_bits_value_bound(prev);
                lemma2_to64();
                if i < 31 {
                    lemma_pow2_strictly_increases(i as nat, 31);
                }
            }
            let b: u32 = if input[*pos] {
                1
            } else {
                0
            };
            proof {
                lemma_shift_in(bits, b);
            }
            bits = (bits << 1u32) | b;
            *pos = *pos + 1;
            i = i + 1;
            assert(input@.subrange(pos0, pos0 + i).drop_last() =~= prev);
        }
        bits
    }

    /// Reads 32 bits, the first one read becoming the least significant:
    /// each bit read goes in on top and the word so far moves down a place.
    fn read_word_lsb(input: &[bool], pos: &mut usize) -> (r: u32)
        requires
            *old(pos) + 32 <= input.len(),
        ensures
            *final(pos) == *old(pos) + 32,
            r == word_value(input@.subrange(*old(pos) as int, *old(pos) + 32), BitOrder::Lsb),
    {
        let ghost pos0 = *pos as int;
        let mut bits: u32 = 0;
        let mut i: usize = 0;
        proof {
            lemma2_to64();
            assert(input@.subrange(pos0, pos0).reverse() =~= Seq::<bool>::empty());
            assert(bits_value(Seq::<bool>::empty()) == 0);
        }
        while i < 32
            invariant
                0 <= i <= 32,
                0 <= pos0,
                *pos as int == pos0 + i,
                pos0 + 32 <= input.len(),
                bits as int == bits_value(input@.subrange(pos0, pos0 + i).reverse()) * pow2(
                    (32 - i) as nat,
                ),
            decreases 32 - i,
        {
            let ghost prev = input@.subrange(pos0, pos0 + i);
            let b: u32 = if input[*pos] {
                1
            } else {
                0
            };
            proof {
                lemma_lsb_step(prev, input@[pos0 + i]);
                assert((bits >> 1u32) | (b << 31u32) == bits / 2 + b * 0x8000_0000) by (bit_vector)
                    requires
                        b <= 1,
                ;
                assert(input@.subrange(pos0, pos0 + i + 1) =~= prev.push(input@[pos0 + i]));
            }
            bits = (bits >> 1u32) | (b << 31u32);
            *pos = *pos + 1;
            i = i + 1;
        }
        proof {
            lemma2_to64();
            let w = input@.subrange(pos0, pos0 + 32);
            assert(bits as int == bits_value(w.reverse()) * 1);
            assert(word_value(w, BitOrder::Lsb) == bits_value(w.reverse()));
        }
        bits
    }

    pub fn high(&self) -> (r: u64)
        ensures
            r == self@.range.high,
    {
        self.range.high()
    }

    pub fn low(&self) -> (r: u64)
        ensures
            r == self@.range.low,
    {
        self.range.low()
    }

    pub fn buffer(&self) -> (r: u32)
        ensures
            r == self@.buffer,
    {
        self.buffer
    }
}

} // verus!
