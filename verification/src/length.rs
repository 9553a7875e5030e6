use vstd::prelude::*;
use vstd::arithmetic::power2::{pow2, lemma_pow2_pos, lemma_pow2_adds, lemma2_to64};
use vstd::arithmetic::div_mod::lemma_fundamental_div_mod;
use crate::interval::{
    EncModel, QUARTER, WHOLE, enc_init, enc_run, enc_step, enc_renorm, encoded_bits, in_window, level,
    narrow_high, narrow_low, normalized, pad_len, lemma_narrow,
};
use crate::counts::lemma_static_encoder_counts;
use crate::roundtrip::{abs_high, abs_low, lemma_enc_renorm_scaling, lemma_run_wf};
use crate::table::{
    all_ternary, is_ternary, model_ok, model_total, symbol_index, sym_high, sym_low, lemma_all_ternary_prefix,
};

verus! {

/// Number of window positions in the interval `[low, high]`.
pub open spec fn width(e: EncModel) -> int {
    e.high - e.low + 1
}

/// Product, over the symbols of `data`, of `c * (2^30 + 1) - t`, where `c` is
/// the symbol's count and `t` the total of the counts in use when it is coded.
pub open spec fn weight_product(data: Seq<i32>, c0: Seq<nat>, adaptive: bool) -> int
    decreases data.len(),
{
    if data.len() == 0 {
        1
    } else {
        let c = enc_run(data.drop_last(), c0, adaptive).1;
        weight_product(data.drop_last(), c0, adaptive) * (c[symbol_index(data.last())] * (QUARTER + 1)
            - model_total(c))
    }
}

/// Product, over the symbols of `data`, of `t * (2^30 + 1)`, where `t` is the
/// total of the counts in use when the symbol is coded.
pub open spec fn total_product(data: Seq<i32>, c0: Seq<nat>, adaptive: bool) -> int
    decreases data.len(),
{
    if data.len() == 0 {
        1
    } else {
        let c = enc_run(data.drop_last(), c0, adaptive).1;
        total_product(data.drop_last(), c0, adaptive) * (model_total(c) * (QUARTER + 1))
    }
}

/// Product, over the symbols `x` of `data`, of `c[x] * (2^30 + 1) - t`, for
/// fixed counts `c` of total `t`.
pub open spec fn weight_under(data: Seq<i32>, c: Seq<nat>) -> int
    decreases data.len(),
{
    if data.len() == 0 {
        1
    } else {
        weight_under(data.drop_last(), c) * (c[symbol_index(data.last())] * (QUARTER + 1) - model_total(c))
    }
}

/// `(t * (2^30 + 1))^n` for the total `t` of counts `c`.
pub open spec fn total_under(c: Seq<nat>, n: nat) -> int
    decreases n,
{
    if n == 0 {
        1
    } else {
        total_under(c, (n - 1) as nat) * (model_total(c) * (QUARTER + 1))
    }
}

/// A normalized interval is wider than a quarter of the window.
pub proof fn lemma_normalized_wide(low: int, high: int)
    requires
        in_window(low, high),
        normalized(low, high),
    ensures
        high - low + 1 > QUARTER + 1,
{
}

/// Coding one symbol of count `c` out of a total `t` from an interval of width
/// `w` takes `d` rescalings with `2^d * (c * w - t) < t * w'`, `w'` the width
/// afterwards: each rescaling doubles the width, and narrowing keeps at least
/// the share `c / t` of it, less one position for rounding.
pub proof fn lemma_step_length(e: EncModel, x: i32, c: Seq<nat>)
    requires
        in_window(e.low, e.high),
        normalized(e.low, e.high),
        model_ok(c),
        model_total(c) <= QUARTER,
        is_ternary(x),
    ensures
        level(enc_step(e, x, c)) >= level(e),
        pow2((level(enc_step(e, x, c)) - level(e)) as nat) * (c[symbol_index(x)] * width(e) - model_total(c))
            < model_total(c) * width(enc_step(e, x, c)),
{
    let nl = narrow_low(e.low, e.high, c, x);
    let nh = narrow_high(e.low, e.high, c, x);
    let n = EncModel { low: nl, high: nh, ..e };
    lemma_narrow(e.low, e.high, c, x);
    lemma_enc_renorm_scaling(n);
    let f = enc_step(e, x, c);
    assert(f == enc_renorm(n));
    let j = (level(f) - level(e)) as nat;
    let pj = pow2(j) as int;
    lemma_pow2_pos(j);
    // the width scales by 2^j
    let vn = width(n);
    assert(abs_high(n) + 1 - abs_low(n) == vn);
    assert(abs_high(f) + 1 - abs_low(f) == width(f));
    assert(width(f) == vn * pj) by (nonlinear_arith)
        requires
            abs_low(f) == abs_low(n) * pj,
            abs_high(f) + 1 == (abs_high(n) + 1) * pj,
            abs_high(f) + 1 - abs_low(f) == width(f),
            abs_high(n) + 1 - abs_low(n) == vn,
    ;
    // narrowing keeps more than c * w / t - 1 positions
    let w = width(e);
    let t = model_total(c) as int;
    let sl = sym_low(c, x) as int;
    let sh = sym_high(c, x) as int;
    let cnt = c[symbol_index(x)] as int;
    assert(sh - sl == cnt);
    lemma_fundamental_div_mod(w * sh, t);
    lemma_fundamental_div_mod(w * sl, t);
    let qh = (w * sh) / t;
    let ql = (w * sl) / t;
    assert(vn == qh - ql);
    let rh = (w * sh) % t;
    let rl = (w * sl) % t;
    assert(0 <= rh < t && 0 <= rl < t);
    assert(w * sh - w * sl == w * cnt) by (nonlinear_arith)
        requires
            sh - sl == cnt,
    ;
    assert(t * vn > cnt * w - t) by (nonlinear_arith)
        requires
            w * sh == t * qh + rh,
            w * sl == t * ql + rl,
            vn == qh - ql,
            w * sh - w * sl == w * cnt,
            rh < t,
            rl >= 0,
    ;
    assert(pj * (cnt * w - t) < t * (vn * pj)) by (nonlinear_arith)
        requires
            t * vn > cnt * w - t,
            pj > 0,
    ;
}

/// The run-level bound, carried with the current width.
proof fn lemma_run_length(data: Seq<i32>, c0: Seq<nat>, adaptive: bool)
    requires
        all_ternary(data),
        model_ok(c0),
        model_total(c0) <= QUARTER,
    ensures
        pow2(level(enc_run(data, c0, adaptive).0)) * weight_product(data, c0, adaptive) * WHOLE
            <= total_product(data, c0, adaptive) * width(enc_run(data, c0, adaptive).0),
        weight_product(data, c0, adaptive) >= 1,
        total_product(data, c0, adaptive) >= 1,
    decreases data.len(),
{
    if data.len() == 0 {
        lemma2_to64();
        assert(level(enc_init()) == 0);
    } else {
        let d = data.drop_last();
        let x = data.last();
        lemma_all_ternary_prefix(data, data.len() - 1);
        assert(d =~= data.take(data.len() - 1));
        lemma_run_length(d, c0, adaptive);
        lemma_run_wf(d, c0, adaptive);
        let (e, c) = enc_run(d, c0, adaptive);
        let f = enc_step(e, x, c);
        assert(f == enc_run(data, c0, adaptive).0);
        lemma_step_length(e, x, c);
        lemma_normalized_wide(e.low, e.high);
        let k0 = level(e);
        let dd = (level(f) - k0) as nat;
        lemma_pow2_adds(k0, dd);
        assert(level(f) == k0 + dd);
        let p0 = pow2(k0) as int;
        let pd = pow2(dd) as int;
        lemma_pow2_pos(dd);
        lemma_pow2_pos(k0);
        let r0 = weight_product(d, c0, adaptive);
        let n0 = total_product(d, c0, adaptive);
        let t = model_total(c) as int;
        let cnt = c[symbol_index(x)] as int;
        let q1 = QUARTER + 1;
        let g = cnt * q1 - t;
        let w = width(e);
        let wf = width(f);
        let big = WHOLE as int;
        assert(g >= 1);
        assert(weight_product(data, c0, adaptive) == r0 * g);
        assert(total_product(data, c0, adaptive) == n0 * (t * q1));
        // the step, scaled to the rounded weight
        assert(w * g <= (cnt * w - t) * q1) by (nonlinear_arith)
            requires
                g == cnt * q1 - t,
                w >= q1,
                t >= 0,
        ;
        assert(pd * (w * g) <= t * q1 * wf) by (nonlinear_arith)
            requires
                w * g <= (cnt * w - t) * q1,
                pd * (cnt * w - t) < t * wf,
                pd > 0,
                q1 > 0,
        ;
        // combine with the run so far
        assert(p0 * r0 * big * (pd * g) <= n0 * w * (pd * g)) by (nonlinear_arith)
            requires
                p0 * r0 * big <= n0 * w,
                pd * g >= 0,
        ;
        assert(n0 * w * (pd * g) <= n0 * (t * q1) * wf) by (nonlinear_arith)
            requires
                pd * (w * g) <= t * q1 * wf,
                n0 >= 1,
        ;
        assert(p0 * pd * (r0 * g) * big == p0 * r0 * big * (pd * g)) by (nonlinear_arith);
        assert(r0 * g >= 1) by (nonlinear_arith)
            requires
                r0 >= 1,
                g >= 1,
        ;
        assert(n0 * (t * q1) >= 1) by (nonlinear_arith)
            requires
                n0 >= 1,
                t >= 1,
                q1 >= 1,
        ;
    }
}

/// Length of the encoding.  With `K` the number of rescalings, the encoding
/// has between `K + 2` and `K + 9` bits (two closing bits and at most seven
/// bits of padding), and
/// `2^K * weight_product <= total_product`, that is
/// `K <= sum of log2(t / c) + sum of -log2(1 - t / (c * (2^30 + 1)))`
/// over the symbols coded, `c` being the symbol's count and `t` the total in
/// use: the ideal code length of the data under the counts, plus a slack
/// for integer rounding that is small when `t` is small against `2^30`.
pub proof fn lemma_code_length(data: Seq<i32>, c0: Seq<nat>, adaptive: bool)
    requires
        all_ternary(data),
        model_ok(c0),
        model_total(c0) <= QUARTER,
    ensures
        weight_product(data, c0, adaptive) >= 1,
        pow2(level(enc_run(data, c0, adaptive).0)) * weight_product(data, c0, adaptive) <= total_product(
            data,
            c0,
            adaptive,
        ),
        level(enc_run(data, c0, adaptive).0) + 2 <= encoded_bits(data, c0, adaptive).len(),
        encoded_bits(data, c0, adaptive).len() <= level(enc_run(data, c0, adaptive).0) + 9,
{
    lemma_run_length(data, c0, adaptive);
    lemma_run_wf(data, c0, adaptive);
    let f = enc_run(data, c0, adaptive).0;
    let p = pow2(level(f)) as int;
    let r = weight_product(data, c0, adaptive);
    let n = total_product(data, c0, adaptive);
    let big = WHOLE as int;
    assert(width(f) <= big);
    assert(p * r * big <= n * big) by (nonlinear_arith)
        requires
            p * r * big <= n * width(f),
            width(f) <= big,
            n >= 1,
    ;
    assert(p * r <= n) by (nonlinear_arith)
        requires
            p * r * big <= n * big,
            big > 0,
    ;
    assert(pad_len(level(f) + 2) <= 7);
}

/// Length of a static encoding, with the counts of the table given: with `K`
/// the number of rescalings (the encoding has `K + 2` to `K + 9` bits),
/// `2^K * prod_x (c[x] * (2^30 + 1) - t) <= (t * (2^30 + 1))^n` over the `n`
/// symbols `x` of the data, `c` and `t` being the given counts and their
/// total.  So each symbol costs `log2(t / c[x])` bits of the table's own
/// probabilities, plus the rounding slack `-log2(1 - t / (c[x] * (2^30 + 1)))`.
pub proof fn lemma_static_code_length(data: Seq<i32>, c0: Seq<nat>)
    requires
        all_ternary(data),
        model_ok(c0),
        model_total(c0) <= QUARTER,
    ensures
        weight_under(data, c0) >= 1,
        pow2(level(enc_run(data, c0, false).0)) * weight_under(data, c0) <= total_under(c0, data.len()),
        level(enc_run(data, c0, false).0) + 2 <= encoded_bits(data, c0, false).len(),
        encoded_bits(data, c0, false).len() <= level(enc_run(data, c0, false).0) + 9,
{
    lemma_code_length(data, c0, false);
    lemma_products_under(data, c0);
}

/// In static mode the run's products are those of the given counts.
proof fn lemma_products_under(data: Seq<i32>, c0: Seq<nat>)
    ensures
        weight_product(data, c0, false) == weight_under(data, c0),
        total_product(data, c0, false) == total_under(c0, data.len()),
    decreases data.len(),
{
    if data.len() > 0 {
        lemma_products_under(data.drop_last(), c0);
        lemma_static_encoder_counts(data.drop_last(), c0);
    }
}

} // verus!
