use vstd::prelude::*;
use vstd::arithmetic::div_mod::{
    lemma_div_is_ordered, lemma_div_plus_one, lemma_div_multiples_vanish, lemma_fundamental_div_mod,
};
use crate::bits::{repeat_bit, stream_bit, prefix_value};
use crate::table::{is_ternary, model_ok, model_total, sym_low, sym_high, symbol_for, adapt};

verus! {

/// Number of bits of the coding window.
pub const PRECISION: u32 = 32;

/// Size of the coding window, 2^32.
pub const WHOLE: u64 = 0x1_0000_0000;

/// Half of the window, 2^31.
pub const HALF: u64 = 0x8000_0000;

/// A quarter of the window, 2^30; also the largest table total the coder accepts.
pub const QUARTER: u64 = 0x4000_0000;

/// The coding window as the specification sees the encoder: the interval
/// `[low, high]`, the bits emitted so far and the count of pending
/// (straddling) rescalings whose bits are not yet known.
pub struct EncModel {
    pub low: int,
    pub high: int,
    pub bits: Seq<bool>,
    pub pending: nat,
}

/// The decoder as the specification sees it: the interval `[low, high]`, the
/// window of the stream held in `code`, and how many stream bits were read.
pub struct DecModel {
    pub low: int,
    pub high: int,
    pub code: int,
    pub pos: nat,
}

/// How many rescalings the encoder has done: each one emits a bit or defers it.
pub open spec fn level(e: EncModel) -> nat {
    e.bits.len() + e.pending
}

/// `[low, high]` is a nonempty interval inside the window.
pub open spec fn in_window(low: int, high: int) -> bool {
    0 <= low <= high < WHOLE
}

/// Which rescaling applies to `[low, high]`: 0 when it lies in the lower half,
/// 1 in the upper half, 2 in the middle half, 3 when none applies.
pub open spec fn scale_kind(low: int, high: int) -> int {
    if high < HALF {
        0
    } else if low >= HALF {
        1
    } else if low >= QUARTER && high < 3 * QUARTER {
        2
    } else {
        3
    }
}

/// What a rescaling of the given kind subtracts after doubling.
pub open spec fn scale_shift(kind: int) -> int {
    if kind == 0 {
        0
    } else if kind == 1 {
        WHOLE as int
    } else {
        HALF as int
    }
}

/// No rescaling applies: the interval straddles the middle and is wider than a quarter.
pub open spec fn normalized(low: int, high: int) -> bool {
    &&& low < HALF <= high
    &&& (low < QUARTER || high >= 3 * QUARTER)
}

/// `bit` followed by `pending` copies of its opposite.
pub open spec fn emit_with_pending(bits: Seq<bool>, bit: bool, pending: nat) -> Seq<bool> {
    bits.push(bit) + repeat_bit(!bit, pending)
}

/// One rescaling step of the encoder.
pub open spec fn enc_rescale_once(e: EncModel) -> EncModel {
    let k = scale_kind(e.low, e.high);
    let sh = scale_shift(k);
    EncModel {
        low: 2 * e.low - sh,
        high: 2 * e.high + 1 - sh,
        bits: if k == 2 {
            e.bits
        } else {
            emit_with_pending(e.bits, k == 1, e.pending)
        },
        pending: if k == 2 {
            e.pending + 1
        } else {
            0
        },
    }
}

/// The encoder rescales until no rescaling applies.
pub open spec fn enc_renorm(e: EncModel) -> EncModel
    decreases WHOLE - (e.high - e.low),
{
    if in_window(e.low, e.high) && scale_kind(e.low, e.high) != 3 {
        enc_renorm(enc_rescale_once(e))
    } else {
        e
    }
}

/// Lower end of the part of `[low, high]` that belongs to symbol `s`.
pub open spec fn narrow_low(low: int, high: int, c: Seq<nat>, s: i32) -> int {
    low + (high - low + 1) * sym_low(c, s) / (model_total(c) as int)
}

/// Upper end of the part of `[low, high]` that belongs to symbol `s`.
pub open spec fn narrow_high(low: int, high: int, c: Seq<nat>, s: i32) -> int {
    low + (high - low + 1) * sym_high(c, s) / (model_total(c) as int) - 1
}

/// The encoder state of a fresh encoder.
pub open spec fn enc_init() -> EncModel {
    EncModel { low: 0, high: WHOLE - 1, bits: Seq::empty(), pending: 0 }
}

/// Encoding one symbol: narrow to its part of the interval, then rescale.
pub open spec fn enc_step(e: EncModel, s: i32, c: Seq<nat>) -> EncModel {
    enc_renorm(
        EncModel {
            low: narrow_low(e.low, e.high, c, s),
            high: narrow_high(e.low, e.high, c, s),
            ..e
        },
    )
}

/// The counts in use for the next symbol: unchanged in static mode, adapted in
/// adaptive mode.
pub open spec fn next_counts(c: Seq<nat>, s: i32, adaptive: bool) -> Seq<nat> {
    if adaptive {
        adapt(c, s)
    } else {
        c
    }
}

/// The encoder state after a whole sequence, with the counts in use at the end.
pub open spec fn enc_run(data: Seq<i32>, c0: Seq<nat>, adaptive: bool) -> (EncModel, Seq<nat>)
    decreases data.len(),
{
    if data.len() == 0 {
        (enc_init(), c0)
    } else {
        let (e, c) = enc_run(data.drop_last(), c0, adaptive);
        (enc_step(e, data.last(), c), next_counts(c, data.last(), adaptive))
    }
}

/// The bits that end the encoding: one more pending rescaling and a bit that
/// places a point of the interval.
pub open spec fn enc_finish(e: EncModel) -> Seq<bool> {
    emit_with_pending(e.bits, e.low >= QUARTER, e.pending + 1)
}

/// Zeros that complete the last byte.
pub open spec fn pad_len(n: nat) -> nat {
    ((8 - n % 8) % 8) as nat
}

/// A bit sequence completed with zeros to whole bytes.
pub open spec fn pad_to_bytes(b: Seq<bool>) -> Seq<bool> {
    b + repeat_bit(false, pad_len(b.len()))
}

/// The bits of the encoding of `data`.
pub open spec fn encoded_bits(data: Seq<i32>, c0: Seq<nat>, adaptive: bool) -> Seq<bool> {
    pad_to_bytes(enc_finish(enc_run(data, c0, adaptive).0))
}

/// The decoder state of a fresh decoder on a stream: it has read one window of bits.
pub open spec fn dec_init(s: Seq<bool>) -> DecModel {
    DecModel { low: 0, high: WHOLE - 1, code: prefix_value(s, PRECISION as nat) as int, pos: PRECISION as nat }
}

/// Where the code falls among the cumulative counts.
pub open spec fn scaled_target(d: DecModel, c: Seq<nat>) -> int {
    ((d.code - d.low + 1) * model_total(c) - 1) / (d.high - d.low + 1)
}

/// The symbol the decoder reads next.
pub open spec fn dec_symbol(d: DecModel, c: Seq<nat>) -> i32 {
    symbol_for(c, scaled_target(d, c))
}

/// One rescaling step of the decoder; it reads the next stream bit.
pub open spec fn dec_rescale_once(d: DecModel, s: Seq<bool>) -> DecModel {
    let sh = scale_shift(scale_kind(d.low, d.high));
    DecModel {
        low: 2 * d.low - sh,
        high: 2 * d.high + 1 - sh,
        code: 2 * d.code - sh + stream_bit(s, d.pos as int),
        pos: d.pos + 1,
    }
}

/// The decoder rescales until no rescaling applies.
pub open spec fn dec_renorm(d: DecModel, s: Seq<bool>) -> DecModel
    decreases WHOLE - (d.high - d.low),
{
    if in_window(d.low, d.high) && scale_kind(d.low, d.high) != 3 {
        dec_renorm(dec_rescale_once(d, s), s)
    } else {
        d
    }
}

/// Decoding one symbol: narrow to the part of the symbol read, then rescale.
pub open spec fn dec_step(d: DecModel, c: Seq<nat>, s: Seq<bool>) -> DecModel {
    let sym = dec_symbol(d, c);
    dec_renorm(
        DecModel {
            low: narrow_low(d.low, d.high, c, sym),
            high: narrow_high(d.low, d.high, c, sym),
            ..d
        },
        s,
    )
}

/// The symbols read from a stream, the decoder state after them, and the
/// counts in use at the end.
pub open spec fn dec_run(s: Seq<bool>, n: nat, c0: Seq<nat>, adaptive: bool) -> (
    Seq<i32>,
    DecModel,
    Seq<nat>,
)
    decreases n,
{
    if n == 0 {
        (Seq::empty(), dec_init(s), c0)
    } else {
        let (out, d, c) = dec_run(s, (n - 1) as nat, c0, adaptive);
        let sym = dec_symbol(d, c);
        (out.push(sym), dec_step(d, c, s), next_counts(c, sym, adaptive))
    }
}

/// The first `n` symbols decoded from a stream.
pub open spec fn decoded(s: Seq<bool>, n: nat, c0: Seq<nat>, adaptive: bool) -> Seq<i32> {
    dec_run(s, n, c0, adaptive).0
}

/// A rescaling keeps the interval inside the window and doubles its width (plus one).
pub proof fn lemma_rescale_window(low: int, high: int)
    requires
        in_window(low, high),
        scale_kind(low, high) != 3,
    ensures
        in_window(
            2 * low - scale_shift(scale_kind(low, high)),
            2 * high + 1 - scale_shift(scale_kind(low, high)),
        ),
        high - low < HALF,
{
}

/// A rescaled encoder ends inside the window with no rescaling left to apply;
/// each step adds one to the emitted bits plus pending count.
pub proof fn lemma_enc_renorm(e: EncModel)
    requires
        in_window(e.low, e.high),
    ensures
        in_window(enc_renorm(e).low, enc_renorm(e).high),
        normalized(enc_renorm(e).low, enc_renorm(e).high),
        enc_renorm(e).bits.len() + enc_renorm(e).pending >= e.bits.len() + e.pending,
    decreases WHOLE - (e.high - e.low),
{
    if scale_kind(e.low, e.high) != 3 {
        lemma_rescale_window(e.low, e.high);
        lemma_enc_renorm(enc_rescale_once(e));
    }
}

/// The part of an interval given to a symbol lies inside the interval.
pub proof fn lemma_narrow_within(low: int, high: int, c: Seq<nat>, s: i32)
    requires
        low <= high,
        model_ok(c),
        is_ternary(s),
    ensures
        low <= narrow_low(low, high, c, s),
        narrow_high(low, high, c, s) <= high,
{
    let r = high - low + 1;
    let t = model_total(c) as int;
    let l = sym_low(c, s) as int;
    let h = sym_high(c, s) as int;
    assert(0 <= l < h <= t);
    assert(r * l >= 0) by (nonlinear_arith)
        requires
            r >= 0,
            l >= 0,
    ;
    assert(r * h <= r * t) by (nonlinear_arith)
        requires
            h <= t,
            r >= 0,
    ;
    lemma_div_is_ordered(r * h, r * t, t);
    lemma_div_multiples_vanish(r, t);
    assert((r * l) / t >= 0) by (nonlinear_arith)
        requires
            r * l >= 0,
            t > 0,
    ;
    assert(r * t == t * r) by (nonlinear_arith);
}

/// The part of a normalized interval given to a symbol is a nonempty
/// subinterval, provided the table total is at most a quarter of the window.
pub proof fn lemma_narrow(low: int, high: int, c: Seq<nat>, s: i32)
    requires
        in_window(low, high),
        normalized(low, high),
        model_ok(c),
        model_total(c) <= QUARTER,
        is_ternary(s),
    ensures
        low <= narrow_low(low, high, c, s) <= narrow_high(low, high, c, s) <= high,
{
    let r = high - low + 1;
    let t = model_total(c) as int;
    let l = sym_low(c, s) as int;
    let h = sym_high(c, s) as int;
    assert(r >= t);
    assert(0 <= l < h <= t);
    assert(r * l >= 0) by (nonlinear_arith)
        requires
            r >= 0,
            l >= 0,
    ;
    assert(r * h >= r * l + t) by (nonlinear_arith)
        requires
            h >= l + 1,
            r >= t,
            r >= 0,
    ;
    assert(r * h <= r * t) by (nonlinear_arith)
        requires
            h <= t,
            r >= 0,
    ;
    lemma_div_is_ordered(r * l + t, r * h, t);
    lemma_div_plus_one(r * l, t);
    lemma_div_is_ordered(r * h, r * t, t);
    lemma_div_multiples_vanish(r, t);
    assert((r * l) / t >= 0) by (nonlinear_arith)
        requires
            r * l >= 0,
            t > 0,
    ;
    assert(r * t == t * r) by (nonlinear_arith);
}

/// `a / t <= k` exactly when `a < (k + 1) * t`.
proof fn lemma_floor_le(a: int, t: int, k: int)
    requires
        t > 0,
        a >= 0,
    ensures
        (a / t <= k) == (a < (k + 1) * t),
{
    lemma_fundamental_div_mod(a, t);
    let q = a / t;
    let m = a % t;
    assert(0 <= m < t);
    if q <= k {
        assert(t * q + m < (k + 1) * t) by (nonlinear_arith)
            requires
                q <= k,
                m < t,
                t > 0,
        ;
    } else {
        assert(t * q + m >= (k + 1) * t) by (nonlinear_arith)
            requires
                q >= k + 1,
                m >= 0,
                t > 0,
        ;
    }
}

/// `x <= m / r` exactly when `r * x <= m`.
proof fn lemma_le_floor(x: int, m: int, r: int)
    requires
        r > 0,
        m >= 0,
    ensures
        (x <= m / r) == (r * x <= m),
{
    lemma_fundamental_div_mod(m, r);
    let q = m / r;
    let rem = m % r;
    assert(0 <= rem < r);
    if x <= q {
        assert(r * x <= r * q + rem) by (nonlinear_arith)
            requires
                x <= q,
                rem >= 0,
                r > 0,
        ;
    } else {
        assert(r * x > r * q + rem) by (nonlinear_arith)
            requires
                x >= q + 1,
                rem < r,
                r > 0,
        ;
    }
}

/// The decoder's target and the encoder's narrowing agree: a symbol boundary
/// `x` maps at or below the code offset `k` exactly when `x` is at most the target.
pub proof fn lemma_target(r: int, t: int, k: int, x: int)
    requires
        r > 0,
        t > 0,
        k >= 0,
        x >= 0,
    ensures
        ((r * x) / t <= k) == (x <= ((k + 1) * t - 1) / r),
{
    assert(r * x >= 0) by (nonlinear_arith)
        requires
            r > 0,
            x >= 0,
    ;
    assert((k + 1) * t - 1 >= 0) by (nonlinear_arith)
        requires
            k >= 0,
            t > 0,
    ;
    lemma_floor_le(r * x, t, k);
    lemma_le_floor(x, (k + 1) * t - 1, r);
}

/// The symbol the decoder reads is the one whose part of the interval holds the
/// code, and it is the only such symbol.
pub proof fn lemma_dec_choice(d: DecModel, c: Seq<nat>, s: i32)
    requires
        model_ok(c),
        0 <= d.low <= d.code <= d.high,
        is_ternary(s),
    ensures
        is_ternary(dec_symbol(d, c)),
        narrow_low(d.low, d.high, c, dec_symbol(d, c)) <= d.code <= narrow_high(
            d.low,
            d.high,
            c,
            dec_symbol(d, c),
        ),
        narrow_low(d.low, d.high, c, s) <= d.code <= narrow_high(d.low, d.high, c, s) ==> dec_symbol(d, c) == s,
{
    let r = d.high - d.low + 1;
    let t = model_total(c) as int;
    let k = d.code - d.low;
    let q = scaled_target(d, c);
    assert(q == ((k + 1) * t - 1) / r);
    // the target is below the total
    assert((k + 1) * t - 1 < r * t) by (nonlinear_arith)
        requires
            k + 1 <= r,
            t > 0,
    ;
    assert((k + 1) * t - 1 >= 0) by (nonlinear_arith)
        requires
            k >= 0,
            t > 0,
    ;
    lemma_le_floor(t, (k + 1) * t - 1, r);
    assert(r * t == t * r) by (nonlinear_arith);
    assert(q < t);
    assert(q >= 0) by {
        lemma_le_floor(0, (k + 1) * t - 1, r);
    }
    let chosen = dec_symbol(d, c);
    assert(sym_low(c, chosen) <= q < sym_high(c, chosen));
    lemma_target(r, t, k, sym_low(c, chosen) as int);
    lemma_target(r, t, k, sym_high(c, chosen) as int);
    lemma_target(r, t, k, sym_low(c, s) as int);
    lemma_target(r, t, k, sym_high(c, s) as int);
    if narrow_low(d.low, d.high, c, s) <= d.code <= narrow_high(d.low, d.high, c, s) {
        assert(sym_low(c, s) <= q < sym_high(c, s));
    }
}

/// A decoder rescaling keeps the code inside the interval.
pub proof fn lemma_dec_rescale_window(d: DecModel, s: Seq<bool>)
    requires
        in_window(d.low, d.high),
        d.low <= d.code <= d.high,
        scale_kind(d.low, d.high) != 3,
    ensures
        in_window(dec_rescale_once(d, s).low, dec_rescale_once(d, s).high),
        dec_rescale_once(d, s).low <= dec_rescale_once(d, s).code <= dec_rescale_once(d, s).high,
{
}

} // verus!
