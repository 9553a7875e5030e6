use vstd::prelude::*;
use vstd::arithmetic::power2::{pow2, lemma_pow2_unfold, lemma_pow2_strictly_increases, lemma2_to64};
use crate::bits::{bits_of_bytes, buffer_bits, byte_bits, repeat_bit, lemma_bits_of_bytes_push, lemma_buffer_push};
use crate::interval::{
    EncModel, HALF, QUARTER, WHOLE, enc_init, enc_renorm, enc_rescale_once, enc_step, emit_with_pending,
    in_window, level, narrow_low, narrow_high, normalized, pad_len, scale_kind, lemma_narrow,
    lemma_rescale_window, enc_run, enc_finish, pad_to_bytes, encoded_bits, decoded,
};
use crate::roundtrip::lemma_roundtrip;
use crate::table::{
    FrequencyTable, is_ternary, all_ternary, model_total, model_uniform, lemma_adapt_bounded,
};

verus! {

/// Arithmetic encoder for ternary data.
pub struct ArithmeticEncoder {
    low: u64,
    high: u64,
    pending_bits: u64,
    output: Vec<u8>,
    bit_buffer: u8,
    bit_count: u32,
}

proof fn lemma_double(x: u64)
    by (bit_vector)
    requires
        x < 0x8000_0000_0000_0000u64,
    ensures
        x << 1u64 == 2 * x,
        (x << 1u64) | 1u64 == 2 * x + 1,
{
}

proof fn lemma_flip(bit: u8)
    by (bit_vector)
    requires
        bit <= 1,
    ensures
        bit ^ 1u8 == 1 - bit,
{
}

impl ArithmeticEncoder {
    /// The encoder's state: its interval, the bits emitted so far (whole bytes
    /// and the partly filled one) and the pending count.
    pub closed spec fn model(&self) -> EncModel {
        EncModel {
            low: self.low as int,
            high: self.high as int,
            bits: bits_of_bytes(self.output@) + buffer_bits(self.bit_buffer, self.bit_count as nat),
            pending: self.pending_bits as nat,
        }
    }

    /// The partly filled byte holds fewer than eight bits.
    pub closed spec fn buffer_ok(&self) -> bool {
        self.bit_count < 8
    }

    /// The encoder is ready for the next symbol.
    pub open spec fn wf(&self) -> bool {
        &&& self.buffer_ok()
        &&& in_window(self.model().low, self.model().high)
        &&& normalized(self.model().low, self.model().high)
    }

    /// Create an encoder over the whole window, with nothing emitted yet.
    pub fn new() -> (e: Self)
        ensures
            e.wf(),
            e.model() == enc_init(),
    {
        let e = ArithmeticEncoder {
            low: 0,
            high: WHOLE - 1,
            pending_bits: 0,
            output: Vec::new(),
            bit_buffer: 0,
            bit_count: 0,
        };
        assert(bits_of_bytes(e.output@) + buffer_bits(0, 0) =~= Seq::<bool>::empty());
        e
    }

    fn output_bit(&mut self, bit: u8)
        requires
            old(self).buffer_ok(),
            bit <= 1,
        ensures
            final(self).buffer_ok(),
            final(self).model() == (EncModel { bits: old(self).model().bits.push(bit == 1), ..old(self).model() }),
    {
        let ghost old_bits = self.model().bits;
        proof {
            lemma_buffer_push(self.bit_buffer, self.bit_count as nat, bit);
        }
        self.bit_buffer = (self.bit_buffer << 1) | bit;
        self.bit_count += 1;
        assert(self.model().bits =~= old_bits.push(bit == 1));
        if self.bit_count == 8 {
            let ghost full = self.bit_buffer;
            proof {
                lemma_bits_of_bytes_push(self.output@, full);
                assert(byte_bits(full) =~= buffer_bits(full, 8));
            }
            self.output.push(self.bit_buffer);
            self.bit_buffer = 0;
            self.bit_count = 0;
            assert(self.model().bits =~= old_bits.push(bit == 1));
        }
    }

    fn flush_bits(&mut self)
        requires
            old(self).buffer_ok(),
        ensures
            final(self).buffer_ok(),
            final(self).bit_count == 0,
            final(self).model() == (EncModel {
                bits: old(self).model().bits + repeat_bit(false, pad_len(old(self).model().bits.len())),
                ..old(self).model()
            }),
    {
        let ghost bits0 = self.model().bits;
        let ghost cnt0 = self.bit_count;
        let ghost mut k: nat = 0;
        assert(bits0 =~= bits0 + repeat_bit(false, 0));
        while self.bit_count > 0
            invariant
                self.buffer_ok(),
                self.model() == (EncModel { bits: bits0 + repeat_bit(false, k), ..old(self).model() }),
                bits0.len() == 8 * old(self).output@.len() + cnt0,
                cnt0 < 8,
                cnt0 == 0 ==> k == 0 && self.bit_count == 0,
                cnt0 > 0 && self.bit_count > 0 ==> self.bit_count == cnt0 + k,
                cnt0 > 0 && self.bit_count == 0 ==> k == 8 - cnt0,
                k <= 8,
            decreases 8 - k,
        {
            self.output_bit(0);
            proof {
                assert(bits0 + repeat_bit(false, k + 1) =~= (bits0 + repeat_bit(false, k)).push(false));
                k = k + 1;
            }
        }
        assert(pad_len(bits0.len()) == k);
    }

    fn output_bit_plus_pending(&mut self, bit: u8)
        requires
            old(self).buffer_ok(),
            bit <= 1,
        ensures
            final(self).buffer_ok(),
            final(self).model() == (EncModel {
                bits: emit_with_pending(old(self).model().bits, bit == 1, old(self).model().pending),
                pending: 0,
                ..old(self).model()
            }),
    {
        let ghost bits0 = self.model().bits;
        self.output_bit(bit);
        proof {
            lemma_flip(bit);
        }
        let opposite: u8 = bit ^ 1;
        let mut i: u64 = 0;
        assert(bits0.push(bit == 1) =~= bits0.push(bit == 1) + repeat_bit(!(bit == 1), 0));
        while i < self.pending_bits
            invariant
                self.buffer_ok(),
                i <= self.pending_bits,
                opposite == 1 - bit,
                self.model() == (EncModel {
                    bits: bits0.push(bit == 1) + repeat_bit(!(bit == 1), i as nat),
                    ..old(self).model()
                }),
            decreases self.pending_bits - i,
        {
            self.output_bit(opposite);
            assert(bits0.push(bit == 1) + repeat_bit(!(bit == 1), (i + 1) as nat)
                =~= (bits0.push(bit == 1) + repeat_bit(!(bit == 1), i as nat)).push(opposite == 1));
            i = i + 1;
        }
        self.pending_bits = 0;
    }

    /// Encode a single symbol with the given frequency table.
    pub fn encode_symbol(&mut self, symbol: i32, table: &FrequencyTable)
        requires
            old(self).wf(),
            table.wf(),
            model_total(table@) <= QUARTER,
            is_ternary(symbol),
            old(self).model().pending + 32 <= u64::MAX,
        ensures
            final(self).wf(),
            final(self).model() == enc_step(old(self).model(), symbol, table@),
            final(self).model().high - final(self).model().low + 1 > QUARTER,
            final(self).model().pending <= old(self).model().pending + 32,
            level(final(self).model()) <= level(old(self).model()) + 32,
    {
        let range: u64 = self.high - self.low + 1;
        let (sym_low, sym_high) = table.range(symbol);
        let total: u64 = table.total();
        proof {
            lemma_narrow(self.low as int, self.high as int, table@, symbol);
            assert(range * sym_high <= WHOLE * QUARTER) by (nonlinear_arith)
                requires
                    range <= WHOLE,
                    sym_high <= QUARTER,
            ;
            assert(range * sym_low <= range * sym_high) by (nonlinear_arith)
                requires
                    sym_low <= sym_high,
            ;
        }
        let ghost pending0 = self.pending_bits;
        let ghost level0 = level(self.model());
        self.high = self.low + (range * sym_high / total) - 1;
        self.low = self.low + (range * sym_low / total);
        let ghost narrowed = self.model();
        assert(narrowed == (EncModel {
            low: narrow_low(old(self).model().low, old(self).model().high, table@, symbol),
            high: narrow_high(old(self).model().low, old(self).model().high, table@, symbol),
            ..old(self).model()
        }));
        let ghost mut steps: nat = 0;
        proof {
            lemma2_to64();
        }
        loop
            invariant
                self.buffer_ok(),
                in_window(self.low as int, self.high as int),
                enc_renorm(self.model()) == enc_renorm(narrowed),
                steps <= 32,
                self.high - self.low + 1 >= pow2(steps),
                self.pending_bits <= pending0 + steps,
                level(self.model()) == level0 + steps,
                pending0 + 32 <= u64::MAX,
            ensures
                scale_kind(self.low as int, self.high as int) == 3,
                in_window(self.low as int, self.high as int),
                enc_renorm(self.model()) == enc_renorm(narrowed),
                self.pending_bits <= pending0 + 32,
                level(self.model()) <= level0 + 32,
            decreases WHOLE - (self.high - self.low),
        {
            let ghost before = self.model();
            proof {
                lemma2_to64();
                if scale_kind(self.low as int, self.high as int) != 3 {
                    lemma_rescale_window(self.low as int, self.high as int);
                    if steps >= 32 {
                        if steps > 32 {
                            lemma_pow2_strictly_increases(32, steps);
                        }
                        assert(false);
                    }
                }
            }
            if self.high < HALF {
                self.output_bit_plus_pending(0);
            } else if self.low >= HALF {
                self.output_bit_plus_pending(1);
                self.low = self.low - HALF;
                self.high = self.high - HALF;
            } else if self.low >= QUARTER && self.high < 3 * QUARTER {
                self.pending_bits = self.pending_bits + 1;
                self.low = self.low - QUARTER;
                self.high = self.high - QUARTER;
            } else {
                break;
            }
            proof {
                lemma_double(self.low);
                lemma_double(self.high);
                lemma_pow2_unfold(steps + 1);
            }
            self.low = self.low << 1;
            self.high = (self.high << 1) | 1;
            proof {
                assert(self.model() == enc_rescale_once(before));
                steps = steps + 1;
            }
        }
    }

    /// End the encoding: settle the pending rescalings with a bit that places a
    /// point of the interval, then complete the last byte with zeros.
    fn finish(&mut self)
        requires
            old(self).buffer_ok(),
            old(self).model().pending < u64::MAX,
        ensures
            bits_of_bytes(final(self).output@) == pad_to_bytes(enc_finish(old(self).model())),
            bits_of_bytes(final(self).output@).len() <= level(old(self).model()) + 9,
    {
        self.pending_bits = self.pending_bits + 1;
        if self.low < QUARTER {
            self.output_bit_plus_pending(0);
        } else {
            self.output_bit_plus_pending(1);
        }
        assert(self.model().bits == enc_finish(old(self).model()));
        self.flush_bits();
        assert(bits_of_bytes(self.output@) =~= self.model().bits);
    }

    /// Encode a sequence of ternary symbols.
    pub fn encode(data: &[i32], table: &FrequencyTable) -> (out: Vec<u8>)
        requires
            table.wf(),
            model_total(table@) <= QUARTER,
            all_ternary(data@),
            32 * data@.len() <= u64::MAX,
        ensures
            bits_of_bytes(out@) == encoded_bits(data@, table@, false),
            decoded(bits_of_bytes(out@), data@.len(), table@, false) == data@,
            8 * out@.len() <= 32 * data@.len() + 9,
    {
        let mut encoder = ArithmeticEncoder::new();
        let mut i: usize = 0;
        while i < data.len()
            invariant
                0 <= i <= data.len(),
                encoder.wf(),
                table.wf(),
                model_total(table@) <= QUARTER,
                all_ternary(data@),
                32 * data@.len() <= u64::MAX,
                encoder.model() == enc_run(data@.take(i as int), table@, false).0,
                enc_run(data@.take(i as int), table@, false).1 == table@,
                encoder.model().pending <= 32 * i,
                level(encoder.model()) <= 32 * i,
            decreases data.len() - i,
        {
            assert(data@.take(i + 1).drop_last() =~= data@.take(i as int));
            assert(is_ternary(data@[i as int]));
            encoder.encode_symbol(data[i], table);
            i = i + 1;
        }
        assert(data@.take(data.len() as int) =~= data@);
        encoder.finish();
        proof {
            lemma_roundtrip(data@, table@, false);
        }
        encoder.output
    }

    /// Encode with adaptive frequency updates.
    pub fn encode_adaptive(data: &[i32]) -> (r: (Vec<u8>, usize))
        requires
            all_ternary(data@),
            32 * data@.len() + 9 <= usize::MAX,
        ensures
            bits_of_bytes(r.0@) == encoded_bits(data@, model_uniform(), true),
            r.1 == 8 * r.0@.len(),
            decoded(bits_of_bytes(r.0@), data@.len(), model_uniform(), true) == data@,
            8 * r.0@.len() <= 32 * data@.len() + 9,
    {
        let mut encoder = ArithmeticEncoder::new();
        let mut table = FrequencyTable::uniform();
        let mut i: usize = 0;
        while i < data.len()
            invariant
                0 <= i <= data.len(),
                encoder.wf(),
                table.wf(),
                model_total(table@) <= QUARTER,
                all_ternary(data@),
                32 * data@.len() + 9 <= usize::MAX,
                encoder.model() == enc_run(data@.take(i as int), model_uniform(), true).0,
                table@ == enc_run(data@.take(i as int), model_uniform(), true).1,
                encoder.model().pending <= 32 * i,
                level(encoder.model()) <= 32 * i,
            decreases data.len() - i,
        {
            assert(data@.take(i + 1).drop_last() =~= data@.take(i as int));
            let symbol: i32 = data[i];
            assert(is_ternary(symbol));
            proof {
                lemma_adapt_bounded(table@, symbol);
            }
            encoder.encode_symbol(symbol, &table);
            table.update(symbol);
            if table.total() > QUARTER {
                table.rescale();
            }
            i = i + 1;
        }
        assert(data@.take(data.len() as int) =~= data@);
        encoder.finish();
        proof {
            lemma_roundtrip(data@, model_uniform(), true);
        }
        let len: usize = encoder.output.len();
        (encoder.output, len * 8)
    }

    /// Get the encoded bytes: the whole bytes among the bits emitted so far.
    pub fn into_bytes(self) -> (r: Vec<u8>)
        requires
            self.wf(),
        ensures
            bits_of_bytes(r@) == self.model().bits.take(
                self.model().bits.len() - self.model().bits.len() % 8,
            ),
    {
        assert(bits_of_bytes(self.output@) =~= self.model().bits.take(8 * self.output@.len() as int));
        self.output
    }
}

} // verus!
