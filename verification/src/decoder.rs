use vstd::prelude::*;
use vstd::arithmetic::div_mod::lemma_fundamental_div_mod_converse;
use vstd::arithmetic::power2::lemma2_to64;
use crate::bits::{bits_of_bytes, stream_bit, prefix_value, lemma_bit_is_bit, lemma_prefix_value_bound};
use crate::interval::{
    DecModel, HALF, PRECISION, QUARTER, WHOLE, dec_init, dec_renorm, dec_rescale_once, dec_step, dec_symbol,
    dec_run, decoded, in_window, narrow_low, narrow_high, scale_kind, lemma_dec_choice, lemma_dec_rescale_window,
    lemma_rescale_window, lemma_narrow_within,
};
use crate::table::{FrequencyTable, is_ternary, model_total, model_uniform, lemma_adapt_bounded};

verus! {

/// Arithmetic decoder for ternary data.
pub struct ArithmeticDecoder<'a> {
    data: &'a [u8],
    byte_idx: usize,
    bit_idx: u32,
    low: u64,
    high: u64,
    code: u64,
    /// How many stream bits have been read, including those past the end.
    pos: Ghost<nat>,
}

proof fn lemma_shift_in_bit(x: u64, b: u64)
    by (bit_vector)
    requires
        x < 0x8000_0000_0000_0000u64,
        b <= 1,
    ensures
        (x << 1u64) | b == 2 * x + b,
{
}

proof fn lemma_double_plus_one(x: u64)
    by (bit_vector)
    requires
        x < 0x8000_0000_0000_0000u64,
    ensures
        x << 1u64 == 2 * x,
        (x << 1u64) | 1u64 == 2 * x + 1,
{
}

impl<'a> ArithmeticDecoder<'a> {
    /// The decoder's state: its interval, its code window and the read position.
    pub closed spec fn model(&self) -> DecModel {
        DecModel { low: self.low as int, high: self.high as int, code: self.code as int, pos: self.pos@ }
    }

    /// The bit stream being decoded.
    pub closed spec fn stream(&self) -> Seq<bool> {
        bits_of_bytes(self.data@)
    }

    /// The byte and bit position agree with the number of bits read.
    pub closed spec fn reader_ok(&self) -> bool {
        &&& self.bit_idx < 8
        &&& self.pos@ < 8 * self.data@.len() ==> self.byte_idx * 8 + self.bit_idx == self.pos@
        &&& self.pos@ >= 8 * self.data@.len() ==> self.byte_idx == self.data@.len() && self.bit_idx == 0
    }

    /// The decoder is ready for the next symbol: the code lies in the interval.
    pub open spec fn wf(&self) -> bool {
        &&& self.reader_ok()
        &&& in_window(self.model().low, self.model().high)
        &&& self.model().low <= self.model().code <= self.model().high
    }

    /// Create a decoder over the whole window; it reads the first window of bits.
    pub fn new(data: &'a [u8]) -> (d: Self)
        ensures
            d.wf(),
            d.stream() == bits_of_bytes(data@),
            d.model() == dec_init(bits_of_bytes(data@)),
    {
        let mut decoder = ArithmeticDecoder {
            data,
            byte_idx: 0,
            bit_idx: 0,
            low: 0,
            high: WHOLE - 1,
            code: 0,
            pos: Ghost(0),
        };
        let mut i: u32 = 0;
        proof {
            lemma2_to64();
        }
        while i < PRECISION
            invariant
                i <= PRECISION,
                decoder.reader_ok(),
                decoder.data@ == data@,
                decoder.pos@ == i,
                decoder.code == prefix_value(bits_of_bytes(data@), i as nat),
                decoder.low == 0,
                decoder.high == WHOLE - 1,
            decreases PRECISION - i,
        {
            proof {
                lemma_prefix_value_bound(bits_of_bytes(data@), i as nat);
                lemma2_to64();
                if i < 31 {
                    vstd::arithmetic::power2::lemma_pow2_strictly_increases(i as nat, 31);
                }
            }
            let bit: u64 = decoder.read_bit();
            proof {
                lemma_shift_in_bit(decoder.code, bit);
            }
            decoder.code = (decoder.code << 1) | bit;
            i = i + 1;
        }
        proof {
            lemma_prefix_value_bound(bits_of_bytes(data@), 32);
            lemma2_to64();
        }
        decoder
    }

    fn read_bit(&mut self) -> (b: u64)
        requires
            old(self).reader_ok(),
        ensures
            final(self).reader_ok(),
            b == stream_bit(old(self).stream(), old(self).pos@ as int),
            b <= 1,
            final(self).model() == (DecModel { pos: old(self).pos@ + 1, ..old(self).model() }),
            final(self).data@ == old(self).data@,
    {
        let ghost p = self.pos@;
        proof {
            self.pos = Ghost(p + 1);
        }
        if self.byte_idx < self.data.len() {
            proof {
                lemma_fundamental_div_mod_converse(p as int, 8, self.byte_idx as int, self.bit_idx as int);
                lemma_bit_is_bit(self.data@[self.byte_idx as int] as u64, (7 - self.bit_idx) as u32);
            }
            let bit: u64 = ((self.data[self.byte_idx] as u64) >> (7 - self.bit_idx)) & 1;
            self.bit_idx += 1;
            if self.bit_idx == 8 {
                self.bit_idx = 0;
                self.byte_idx += 1;
            }
            bit
        } else {
            0
        }
    }

    /// Decode a single symbol.
    pub fn decode_symbol(&mut self, table: &FrequencyTable) -> (symbol: i32)
        requires
            old(self).wf(),
            table.wf(),
            model_total(table@) <= u32::MAX,
        ensures
            final(self).wf(),
            final(self).stream() == old(self).stream(),
            is_ternary(symbol),
            symbol == dec_symbol(old(self).model(), table@),
            final(self).model() == dec_step(old(self).model(), table@, old(self).stream()),
    {
        let range: u64 = self.high - self.low + 1;
        let total: u64 = table.total();
        proof {
            assert((self.code - self.low + 1) * total <= WHOLE * u32::MAX) by (nonlinear_arith)
                requires
                    self.code - self.low + 1 <= WHOLE,
                    total <= u32::MAX,
            ;
            assert((self.code - self.low + 1) * total >= 1) by (nonlinear_arith)
                requires
                    self.code - self.low + 1 >= 1,
                    total >= 1,
            ;
        }
        let scaled: u64 = ((self.code - self.low + 1) * total - 1) / range;
        let symbol: i32 = table.symbol_for_cumulative(scaled);
        proof {
            lemma_dec_choice(self.model(), table@, symbol);
            lemma_narrow_within(self.low as int, self.high as int, table@, symbol);
        }
        let (sym_low, sym_high) = table.range(symbol);
        proof {
            assert(range * sym_high <= WHOLE * u32::MAX) by (nonlinear_arith)
                requires
                    range <= WHOLE,
                    sym_high <= u32::MAX,
            ;
            assert(range * sym_low <= range * sym_high) by (nonlinear_arith)
                requires
                    sym_low <= sym_high,
            ;
        }
        let ghost s = self.stream();
        self.high = self.low + (range * sym_high / total) - 1;
        self.low = self.low + (range * sym_low / total);
        let ghost narrowed = self.model();
        assert(narrowed == (DecModel {
            low: narrow_low(old(self).model().low, old(self).model().high, table@, symbol),
            high: narrow_high(old(self).model().low, old(self).model().high, table@, symbol),
            ..old(self).model()
        }));
        loop
            invariant
                self.reader_ok(),
                self.stream() == s,
                in_window(self.low as int, self.high as int),
                self.low <= self.code <= self.high,
                dec_renorm(self.model(), s) == dec_renorm(narrowed, s),
            ensures
                self.reader_ok(),
                self.stream() == s,
                in_window(self.low as int, self.high as int),
                self.low <= self.code <= self.high,
                scale_kind(self.low as int, self.high as int) == 3,
                dec_renorm(self.model(), s) == dec_renorm(narrowed, s),
            decreases WHOLE - (self.high - self.low),
        {
            let ghost before = self.model();
            proof {
                if scale_kind(self.low as int, self.high as int) != 3 {
                    lemma_rescale_window(self.low as int, self.high as int);
                    lemma_dec_rescale_window(before, s);
                }
            }
            if self.high < HALF {
                // Nothing
            } else if self.low >= HALF {
                self.low = self.low - HALF;
                self.high = self.high - HALF;
                self.code = self.code - HALF;
            } else if self.low >= QUARTER && self.high < 3 * QUARTER {
                self.low = self.low - QUARTER;
                self.high = self.high - QUARTER;
                self.code = self.code - QUARTER;
            } else {
                break;
            }
            proof {
                lemma_double_plus_one(self.low);
                lemma_double_plus_one(self.high);
            }
            self.low = self.low << 1;
            self.high = (self.high << 1) | 1;
            let bit: u64 = self.read_bit();
            proof {
                lemma_shift_in_bit(self.code, bit);
            }
            self.code = (self.code << 1) | bit;
            assert(self.model() == dec_rescale_once(before, s));
        }
        symbol
    }

    /// Decode a sequence of given length.
    pub fn decode(data: &'a [u8], table: &FrequencyTable, len: usize) -> (out: Vec<i32>)
        requires
            table.wf(),
            model_total(table@) <= u32::MAX,
        ensures
            out@ == decoded(bits_of_bytes(data@), len as nat, table@, false),
    {
        let mut decoder = ArithmeticDecoder::new(data);
        let mut result: Vec<i32> = Vec::with_capacity(len);
        let ghost s = bits_of_bytes(data@);
        let mut i: usize = 0;
        while i < len
            invariant
                i <= len,
                decoder.wf(),
                decoder.stream() == s,
                table.wf(),
                model_total(table@) <= u32::MAX,
                result@ == dec_run(s, i as nat, table@, false).0,
                decoder.model() == dec_run(s, i as nat, table@, false).1,
                dec_run(s, i as nat, table@, false).2 == table@,
            decreases len - i,
        {
            let symbol: i32 = decoder.decode_symbol(table);
            result.push(symbol);
            i = i + 1;
        }
        result
    }

    /// Decode with adaptive frequency updates.
    pub fn decode_adaptive(data: &'a [u8], len: usize) -> (out: Vec<i32>)
        ensures
            out@ == decoded(bits_of_bytes(data@), len as nat, model_uniform(), true),
    {
        let mut decoder = ArithmeticDecoder::new(data);
        let mut table = FrequencyTable::uniform();
        let mut result: Vec<i32> = Vec::with_capacity(len);
        let ghost s = bits_of_bytes(data@);
        let mut i: usize = 0;
        while i < len
            invariant
                i <= len,
                decoder.wf(),
                decoder.stream() == s,
                table.wf(),
                model_total(table@) <= QUARTER,
                result@ == dec_run(s, i as nat, model_uniform(), true).0,
                decoder.model() == dec_run(s, i as nat, model_uniform(), true).1,
                table@ == dec_run(s, i as nat, model_uniform(), true).2,
            decreases len - i,
        {
            let symbol: i32 = decoder.decode_symbol(&table);
            proof {
                lemma_adapt_bounded(table@, symbol);
            }
            table.update(symbol);
            if table.total() > QUARTER {
                table.rescale();
            }
            result.push(symbol);
            i = i + 1;
        }
        result
    }
}

} // verus!
