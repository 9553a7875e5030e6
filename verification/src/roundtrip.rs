use vstd::prelude::*;
use vstd::arithmetic::power2::{pow2, lemma_pow2_unfold, lemma_pow2_pos, lemma2_to64};
use crate::bits::{
    bits_value, prefix_value, repeat_bit, stream_bit, lemma_bits_value_concat, lemma_bits_value_repeat,
    lemma_prefix_value_extend, lemma_prefix_value_past_end, lemma_prefix_value_zeros,
};
use crate::interval::{
    DecModel, EncModel, HALF, QUARTER, WHOLE, dec_renorm, dec_rescale_once, dec_run, dec_symbol,
    decoded, emit_with_pending, enc_finish, enc_init, enc_renorm, enc_rescale_once, enc_run, enc_step,
    encoded_bits, in_window, level, narrow_high, narrow_low, normalized, pad_len,
    pad_to_bytes, scale_kind, scale_shift, lemma_dec_choice, lemma_enc_renorm, lemma_narrow,
    lemma_rescale_window,
};
use crate::table::{all_ternary, is_ternary, model_ok, model_total, lemma_adapt_bounded, lemma_all_ternary_prefix};

verus! {

/// Where the encoder's window sits in the output stream: the stream value, at
/// the encoder's level, that the bottom of the window stands for.  Emitted bits
/// fix the high part; each pending rescaling adds half a window less its own
/// share.
pub open spec fn offset(e: EncModel) -> int {
    bits_value(e.bits) * WHOLE * pow2(e.pending) + HALF * (pow2(e.pending) - 1)
}

/// Bottom of the encoder's interval in stream coordinates.
pub open spec fn abs_low(e: EncModel) -> int {
    e.low + offset(e)
}

/// Top of the encoder's interval in stream coordinates.
pub open spec fn abs_high(e: EncModel) -> int {
    e.high + offset(e)
}

/// The stream, read to the encoder's level plus one window, lies in the
/// encoder's interval.
pub open spec fn contains(e: EncModel, s: Seq<bool>) -> bool {
    abs_low(e) <= prefix_value(s, level(e) + 32) <= abs_high(e)
}

/// A decoder reading `s` mirrors an encoder: same interval, one window past the
/// encoder's level, and its code is the stream seen through the encoder's window.
pub open spec fn corresponds(e: EncModel, d: DecModel, s: Seq<bool>) -> bool {
    &&& d.low == e.low
    &&& d.high == e.high
    &&& d.pos == level(e) + 32
    &&& d.code == prefix_value(s, d.pos) - offset(e)
}

/// Appending a bit doubles the value and adds the bit.
pub proof fn lemma_bits_value_push(s: Seq<bool>, b: bool)
    ensures
        bits_value(s.push(b)) == 2 * bits_value(s) + if b {
            1nat
        } else {
            0nat
        },
{
    let one = seq![b];
    lemma_bits_value_concat(s, one);
    assert(s.push(b) =~= s + one);
    assert(prefix_value(one, 0) == 0);
    assert(bits_value(one) == 2 * prefix_value(one, 0) + stream_bit(one, 0));
    lemma2_to64();
}

/// The value of a bit followed by a run of its opposite.
pub proof fn lemma_emit_value(bits: Seq<bool>, bit: bool, p: nat)
    ensures
        bits_value(emit_with_pending(bits, bit, p)) == (2 * bits_value(bits) + if bit {
            1int
        } else {
            0int
        }) * pow2(p) + if bit {
            0int
        } else {
            pow2(p) - 1
        },
{
    lemma_bits_value_concat(bits.push(bit), repeat_bit(!bit, p));
    lemma_bits_value_push(bits, bit);
    lemma_bits_value_repeat(!bit, p);
}

/// One encoder rescaling doubles the offset and adds the shift it subtracted
/// from the window; it raises the level by one.
pub proof fn lemma_offset_step(e: EncModel)
    requires
        in_window(e.low, e.high),
        scale_kind(e.low, e.high) != 3,
    ensures
        offset(enc_rescale_once(e)) == 2 * offset(e) + scale_shift(scale_kind(e.low, e.high)),
        level(enc_rescale_once(e)) == level(e) + 1,
{
    let k = scale_kind(e.low, e.high);
    let e1 = enc_rescale_once(e);
    let v = bits_value(e.bits) as int;
    let p = e.pending;
    let pp = pow2(p) as int;
    let w = WHOLE as int;
    let h = HALF as int;
    lemma2_to64();
    lemma_pow2_unfold(p + 1);
    if k == 2 {
        assert(offset(e1) == v * w * (2 * pp) + h * (2 * pp - 1));
        assert(v * w * (2 * pp) + h * (2 * pp - 1) == 2 * (v * w * pp + h * (pp - 1)) + h) by (nonlinear_arith);
    } else {
        lemma_emit_value(e.bits, k == 1, p);
        let b: int = if k == 1 {
            1
        } else {
            0
        };
        let value = bits_value(e1.bits) as int;
        assert(value == (2 * v + b) * pp + if k == 1 {
            0
        } else {
            pp - 1
        });
        assert(offset(e1) == value * w * 1 + h * (1 - 1));
        if k == 1 {
            assert((2 * v + 1) * pp * w == 2 * (v * w * pp + h * (pp - 1)) + w) by (nonlinear_arith)
                requires
                    w == 2 * h,
            ;
        } else {
            assert(((2 * v) * pp + (pp - 1)) * w == 2 * (v * w * pp + h * (pp - 1))) by (nonlinear_arith)
                requires
                    w == 2 * h,
            ;
        }
    }
}

/// Rescaling moves the encoder's interval to a finer level without changing
/// it: in stream coordinates both ends scale by `2^j` for `j` levels gained.
pub proof fn lemma_enc_renorm_scaling(e: EncModel)
    requires
        in_window(e.low, e.high),
    ensures
        level(enc_renorm(e)) >= level(e),
        abs_low(enc_renorm(e)) == abs_low(e) * pow2((level(enc_renorm(e)) - level(e)) as nat),
        abs_high(enc_renorm(e)) + 1 == (abs_high(e) + 1) * pow2((level(enc_renorm(e)) - level(e)) as nat),
    decreases WHOLE - (e.high - e.low),
{
    if scale_kind(e.low, e.high) != 3 {
        let e1 = enc_rescale_once(e);
        lemma_rescale_window(e.low, e.high);
        lemma_offset_step(e);
        lemma_enc_renorm_scaling(e1);
        let f = enc_renorm(e);
        assert(f == enc_renorm(e1));
        let j = (level(f) - level(e1)) as nat;
        lemma_pow2_unfold(j + 1);
        assert((level(f) - level(e)) as nat == j + 1);
        let pj = pow2(j) as int;
        assert(abs_low(e1) == 2 * abs_low(e));
        assert(abs_high(e1) + 1 == 2 * (abs_high(e) + 1));
        assert(abs_low(e1) * pj == abs_low(e) * (2 * pj)) by (nonlinear_arith)
            requires
                abs_low(e1) == 2 * abs_low(e),
        ;
        assert((abs_high(e1) + 1) * pj == (abs_high(e) + 1) * (2 * pj)) by (nonlinear_arith)
            requires
                abs_high(e1) + 1 == 2 * (abs_high(e) + 1),
        ;
        assert(pow2(j + 1) == 2 * pj);
        assert(abs_low(f) == abs_low(e) * pow2(j + 1));
        assert(abs_high(f) + 1 == (abs_high(e) + 1) * pow2(j + 1));
    } else {
        lemma2_to64();
        assert(enc_renorm(e) == e);
        assert(pow2(0) == 1);
        assert(abs_low(e) * 1 == abs_low(e));
        assert((abs_high(e) + 1) * 1 == abs_high(e) + 1);
    }
}

/// A decoder that mirrors an encoder still mirrors it after both rescale.
pub proof fn lemma_renorm_corresponds(e: EncModel, d: DecModel, s: Seq<bool>)
    requires
        in_window(e.low, e.high),
        corresponds(e, d, s),
    ensures
        corresponds(enc_renorm(e), dec_renorm(d, s), s),
    decreases WHOLE - (e.high - e.low),
{
    if scale_kind(e.low, e.high) != 3 {
        let e1 = enc_rescale_once(e);
        let d1 = dec_rescale_once(d, s);
        lemma_rescale_window(e.low, e.high);
        lemma_offset_step(e);
        assert(prefix_value(s, d.pos + 1) == 2 * prefix_value(s, d.pos) + stream_bit(s, d.pos as int));
        assert(corresponds(e1, d1, s));
        lemma_renorm_corresponds(e1, d1, s);
    }
}

/// The encoder state stays a normalized window and the counts stay usable
/// along a whole run.
pub proof fn lemma_run_wf(data: Seq<i32>, c0: Seq<nat>, adaptive: bool)
    requires
        all_ternary(data),
        model_ok(c0),
        model_total(c0) <= QUARTER,
    ensures
        in_window(enc_run(data, c0, adaptive).0.low, enc_run(data, c0, adaptive).0.high),
        normalized(enc_run(data, c0, adaptive).0.low, enc_run(data, c0, adaptive).0.high),
        model_ok(enc_run(data, c0, adaptive).1),
        model_total(enc_run(data, c0, adaptive).1) <= QUARTER,
    decreases data.len(),
{
    if data.len() > 0 {
        let d = data.drop_last();
        lemma_all_ternary_prefix(data, data.len() - 1);
        assert(d =~= data.take(data.len() - 1));
        lemma_run_wf(d, c0, adaptive);
        let (e, c) = enc_run(d, c0, adaptive);
        let x = data.last();
        lemma_narrow(e.low, e.high, c, x);
        lemma_enc_renorm(
            EncModel { low: narrow_low(e.low, e.high, c, x), high: narrow_high(e.low, e.high, c, x), ..e },
        );
        if adaptive {
            lemma_adapt_bounded(c, x);
        }
    } else {
        assert(normalized(enc_init().low, enc_init().high));
    }
}

/// When the stream lies in the encoder's interval after a symbol, it lay in
/// that symbol's part of the interval before, and so in the interval before.
pub proof fn lemma_contains_back(e: EncModel, c: Seq<nat>, x: i32, s: Seq<bool>)
    requires
        in_window(e.low, e.high),
        normalized(e.low, e.high),
        model_ok(c),
        model_total(c) <= QUARTER,
        is_ternary(x),
        contains(enc_step(e, x, c), s),
    ensures
        narrow_low(e.low, e.high, c, x) + offset(e) <= prefix_value(s, level(e) + 32) <= narrow_high(
            e.low,
            e.high,
            c,
            x,
        ) + offset(e),
        contains(e, s),
{
    let nl = narrow_low(e.low, e.high, c, x);
    let nh = narrow_high(e.low, e.high, c, x);
    let n = EncModel { low: nl, high: nh, ..e };
    lemma_narrow(e.low, e.high, c, x);
    lemma_enc_renorm_scaling(n);
    let f = enc_renorm(n);
    let j = (level(f) - level(n)) as nat;
    let m = level(e) + 32;
    lemma_prefix_value_extend(s, m, j);
    assert(level(f) + 32 == m + j);
    let big = prefix_value(s, m + j) as int;
    let small = prefix_value(s, m) as int;
    let pj = pow2(j) as int;
    lemma_pow2_pos(j);
    let a = abs_low(n);
    let b = abs_high(n);
    assert(a * pj <= big <= (b + 1) * pj - 1);
    assert(small * pj <= big < (small + 1) * pj);
    assert(a <= small) by {
        if small < a {
            assert((small + 1) * pj <= a * pj) by (nonlinear_arith)
                requires
                    small + 1 <= a,
                    pj > 0,
            ;
        }
    }
    assert(small <= b) by {
        if small > b {
            assert((b + 1) * pj <= small * pj) by (nonlinear_arith)
                requires
                    b + 1 <= small,
                    pj > 0,
            ;
        }
    }
}

/// The bits that end an encoding place a stream value inside the final interval.
pub proof fn lemma_finish_contains(e: EncModel)
    requires
        in_window(e.low, e.high),
        normalized(e.low, e.high),
    ensures
        contains(e, pad_to_bytes(enc_finish(e))),
{
    let f = enc_finish(e);
    let bit = e.low >= QUARTER;
    let p = e.pending;
    let m = level(e) + 32;
    lemma_prefix_value_zeros(f, pad_len(f.len()), m);
    assert(f.len() == level(e) + 2);
    lemma_prefix_value_past_end(f, 30);
    assert(f.len() + 30 == m);
    lemma_emit_value(e.bits, bit, p + 1);
    lemma_pow2_unfold(p + 1);
    lemma2_to64();
    let v = bits_value(e.bits) as int;
    let pp = pow2(p) as int;
    let q = QUARTER as int;
    let value = prefix_value(pad_to_bytes(f), m) as int;
    assert(value == bits_value(f) * q);
    if bit {
        assert(bits_value(f) == (2 * v + 1) * (2 * pp));
        assert((2 * v + 1) * (2 * pp) * q == v * (4 * q) * pp + (2 * q) * (pp - 1) + 2 * q) by (nonlinear_arith);
        assert(value == offset(e) + HALF);
    } else {
        assert(bits_value(f) == (2 * v) * (2 * pp) + (2 * pp - 1));
        assert(((2 * v) * (2 * pp) + (2 * pp - 1)) * q == v * (4 * q) * pp + (2 * q) * (pp - 1) + q) by (nonlinear_arith);
        assert(value == offset(e) + QUARTER);
    }
}

/// Decoding a stream that lies in the final interval of an encoding reads the
/// encoded symbols back, with the decoder mirroring the encoder throughout.
pub proof fn lemma_run_decodes(data: Seq<i32>, c0: Seq<nat>, adaptive: bool, s: Seq<bool>)
    requires
        all_ternary(data),
        model_ok(c0),
        model_total(c0) <= QUARTER,
        contains(enc_run(data, c0, adaptive).0, s),
    ensures
        dec_run(s, data.len(), c0, adaptive).0 == data,
        dec_run(s, data.len(), c0, adaptive).2 == enc_run(data, c0, adaptive).1,
        corresponds(enc_run(data, c0, adaptive).0, dec_run(s, data.len(), c0, adaptive).1, s),
    decreases data.len(),
{
    if data.len() == 0 {
        let e = enc_init();
        assert(offset(e) == 0) by {
            lemma2_to64();
        }
        assert(dec_run(s, 0, c0, adaptive).0 =~= data);
    } else {
        let d = data.drop_last();
        let x = data.last();
        lemma_all_ternary_prefix(data, data.len() - 1);
        assert(d =~= data.take(data.len() - 1));
        lemma_run_wf(d, c0, adaptive);
        let (e, c) = enc_run(d, c0, adaptive);
        lemma_contains_back(e, c, x, s);
        lemma_run_decodes(d, c0, adaptive, s);
        let (out, dd, c2) = dec_run(s, d.len(), c0, adaptive);
        assert(data.len() - 1 == d.len());
        // the decoder picks the encoded symbol
        lemma_narrow(e.low, e.high, c, x);
        lemma_dec_choice(dd, c, x);
        assert(dec_symbol(dd, c) == x);
        // and then both narrow and rescale alike
        let ne = EncModel { low: narrow_low(e.low, e.high, c, x), high: narrow_high(e.low, e.high, c, x), ..e };
        let nd = DecModel { low: narrow_low(dd.low, dd.high, c, x), high: narrow_high(dd.low, dd.high, c, x), ..dd };
        assert(corresponds(ne, nd, s));
        lemma_renorm_corresponds(ne, nd, s);
        assert(dec_run(s, data.len(), c0, adaptive).0 =~= data);
    }
}

/// Rescaling only appends to the emitted bits.
pub proof fn lemma_renorm_extends_bits(e: EncModel)
    requires
        in_window(e.low, e.high),
    ensures
        enc_renorm(e).bits.len() >= e.bits.len(),
        enc_renorm(e).bits.take(e.bits.len() as int) == e.bits,
    decreases WHOLE - (e.high - e.low),
{
    if scale_kind(e.low, e.high) != 3 {
        let e1 = enc_rescale_once(e);
        lemma_rescale_window(e.low, e.high);
        lemma_renorm_extends_bits(e1);
        assert(e1.bits.take(e.bits.len() as int) =~= e.bits);
        assert(enc_renorm(e).bits.take(e.bits.len() as int) =~= e1.bits.take(e.bits.len() as int));
    } else {
        assert(e.bits.take(e.bits.len() as int) =~= e.bits);
    }
}

/// Encoding a symbol never takes back an emitted bit: the bits emitted before
/// are a prefix of those emitted after.
pub proof fn lemma_step_extends_bits(e: EncModel, x: i32, c: Seq<nat>)
    requires
        in_window(e.low, e.high),
        normalized(e.low, e.high),
        model_ok(c),
        model_total(c) <= QUARTER,
        is_ternary(x),
    ensures
        enc_step(e, x, c).bits.len() >= e.bits.len(),
        enc_step(e, x, c).bits.take(e.bits.len() as int) == e.bits,
{
    lemma_narrow(e.low, e.high, c, x);
    lemma_renorm_extends_bits(
        EncModel { low: narrow_low(e.low, e.high, c, x), high: narrow_high(e.low, e.high, c, x), ..e },
    );
}

/// Encoding a symbol narrows the interval: after the step, at a level `j`
/// rescalings finer, the interval lies inside the old one scaled by `2^j`.
pub proof fn lemma_step_nests(e: EncModel, x: i32, c: Seq<nat>)
    requires
        in_window(e.low, e.high),
        normalized(e.low, e.high),
        model_ok(c),
        model_total(c) <= QUARTER,
        is_ternary(x),
    ensures
        level(enc_step(e, x, c)) >= level(e),
        abs_low(e) * pow2((level(enc_step(e, x, c)) - level(e)) as nat) <= abs_low(enc_step(e, x, c)),
        abs_high(enc_step(e, x, c)) + 1 <= (abs_high(e) + 1) * pow2((level(enc_step(e, x, c)) - level(e)) as nat),
{
    let n = EncModel { low: narrow_low(e.low, e.high, c, x), high: narrow_high(e.low, e.high, c, x), ..e };
    lemma_narrow(e.low, e.high, c, x);
    lemma_enc_renorm_scaling(n);
    let f = enc_step(e, x, c);
    let j = (level(f) - level(e)) as nat;
    let pj = pow2(j) as int;
    lemma_pow2_pos(j);
    assert(abs_low(e) <= abs_low(n));
    assert(abs_high(n) <= abs_high(e));
    assert(abs_low(e) * pj <= abs_low(n) * pj) by (nonlinear_arith)
        requires
            abs_low(e) <= abs_low(n),
            pj > 0,
    ;
    assert((abs_high(n) + 1) * pj <= (abs_high(e) + 1) * pj) by (nonlinear_arith)
        requires
            abs_high(n) <= abs_high(e),
            pj > 0,
    ;
}

/// Decoding fewer symbols gives a prefix of decoding more.
pub proof fn lemma_decoded_prefix(s: Seq<bool>, k: nat, n: nat, c0: Seq<nat>, adaptive: bool)
    requires
        k <= n,
    ensures
        decoded(s, n, c0, adaptive).len() == n,
        decoded(s, n, c0, adaptive).take(k as int) == decoded(s, k, c0, adaptive),
    decreases n,
{
    if n > 0 {
        if k < n {
            lemma_decoded_prefix(s, k, (n - 1) as nat, c0, adaptive);
            let prev = decoded(s, (n - 1) as nat, c0, adaptive);
            assert(decoded(s, n, c0, adaptive).take(k as int) =~= prev.take(k as int));
        } else {
            lemma_decoded_prefix(s, 0, (n - 1) as nat, c0, adaptive);
            assert(decoded(s, n, c0, adaptive).take(k as int) =~= decoded(s, n, c0, adaptive));
        }
    } else {
        assert(decoded(s, n, c0, adaptive).take(k as int) =~= decoded(s, k, c0, adaptive));
    }
}

/// Round trip: decoding the encoding of ternary data, for as many symbols as
/// were encoded and with the same counts (and the same adaptive rule), gives
/// the data back.
pub proof fn lemma_roundtrip(data: Seq<i32>, c0: Seq<nat>, adaptive: bool)
    requires
        all_ternary(data),
        model_ok(c0),
        model_total(c0) <= QUARTER,
    ensures
        decoded(encoded_bits(data, c0, adaptive), data.len(), c0, adaptive) == data,
{
    let e = enc_run(data, c0, adaptive).0;
    lemma_run_wf(data, c0, adaptive);
    lemma_finish_contains(e);
    lemma_run_decodes(data, c0, adaptive, encoded_bits(data, c0, adaptive));
}

/// A stream inside the final interval of an encoding lies inside the
/// interval the encoder held after every prefix of the data.
pub proof fn lemma_contains_prefix(data: Seq<i32>, c0: Seq<nat>, adaptive: bool, s: Seq<bool>, k: int)
    requires
        all_ternary(data),
        model_ok(c0),
        model_total(c0) <= QUARTER,
        contains(enc_run(data, c0, adaptive).0, s),
        0 <= k <= data.len(),
    ensures
        contains(enc_run(data.take(k), c0, adaptive).0, s),
    decreases data.len() - k,
{
    if k == data.len() {
        assert(data.take(k) =~= data);
    } else {
        lemma_contains_prefix(data, c0, adaptive, s, k + 1);
        let longer = data.take(k + 1);
        lemma_all_ternary_prefix(data, k);
        assert(longer.drop_last() =~= data.take(k));
        assert(longer.last() == data[k]);
        lemma_run_wf(data.take(k), c0, adaptive);
        let (e, c) = enc_run(data.take(k), c0, adaptive);
        lemma_contains_back(e, c, data[k], s);
    }
}

/// Decoder and encoder stay in step: after `k` symbols of an encoding the
/// decoder holds the encoder's interval after `k` symbols and the same
/// counts, and for `k` below the length the next symbol it reads is `data[k]`.
pub proof fn lemma_decoder_in_step(data: Seq<i32>, c0: Seq<nat>, adaptive: bool, k: int)
    requires
        all_ternary(data),
        model_ok(c0),
        model_total(c0) <= QUARTER,
        0 <= k <= data.len(),
    ensures
        ({
            let s = encoded_bits(data, c0, adaptive);
            let (out, d, c) = dec_run(s, k as nat, c0, adaptive);
            let (e, ce) = enc_run(data.take(k), c0, adaptive);
            &&& out == data.take(k)
            &&& d.low == e.low
            &&& d.high == e.high
            &&& c == ce
            &&& k < data.len() ==> dec_symbol(d, c) == data[k]
        }),
{
    let s = encoded_bits(data, c0, adaptive);
    lemma_run_wf(data, c0, adaptive);
    lemma_finish_contains(enc_run(data, c0, adaptive).0);
    lemma_contains_prefix(data, c0, adaptive, s, k);
    lemma_all_ternary_prefix(data, k);
    assert(data.take(k).len() == k);
    lemma_run_decodes(data.take(k), c0, adaptive, s);
    if k < data.len() {
        lemma_contains_prefix(data, c0, adaptive, s, k + 1);
        lemma_all_ternary_prefix(data, k + 1);
        lemma_run_decodes(data.take(k + 1), c0, adaptive, s);
        assert(data.take(k + 1)[k] == data[k]);
    }
}

/// Decoding only the first `k` symbols of an encoding gives the first `k`
/// symbols of the data.
pub proof fn lemma_roundtrip_prefix(data: Seq<i32>, c0: Seq<nat>, adaptive: bool, k: nat)
    requires
        all_ternary(data),
        model_ok(c0),
        model_total(c0) <= QUARTER,
        k <= data.len(),
    ensures
        decoded(encoded_bits(data, c0, adaptive), k, c0, adaptive) == data.take(k as int),
{
    lemma_roundtrip(data, c0, adaptive);
    lemma_decoded_prefix(encoded_bits(data, c0, adaptive), k, data.len(), c0, adaptive);
}

} // verus!
