use vstd::prelude::*;
use vstd::arithmetic::power2::{pow2, lemma_pow2_unfold, lemma_pow2_pos};
use vstd::arithmetic::div_mod::lemma_fundamental_div_mod_converse;

verus! {

/// Bit `j` of a byte, counted from the most significant bit (`j == 0`).
pub open spec fn byte_bit(b: u8, j: int) -> bool {
    ((b as u64) >> ((7 - j) as u32)) & 1u64 == 1u64
}

/// The eight bits of a byte, most significant first.
pub open spec fn byte_bits(b: u8) -> Seq<bool> {
    Seq::new(8, |j: int| byte_bit(b, j))
}

/// The bits of a byte sequence, each byte most significant bit first.
pub open spec fn bits_of_bytes(bs: Seq<u8>) -> Seq<bool> {
    Seq::new(8 * bs.len(), |k: int| byte_bit(bs[k / 8], k % 8))
}

/// The `cnt` low bits of a partly filled byte, oldest (most significant) first.
pub open spec fn buffer_bits(buf: u8, cnt: nat) -> Seq<bool> {
    Seq::new(cnt, |j: int| byte_bit(buf, j + 8 - cnt))
}

/// `n` copies of one bit.
pub open spec fn repeat_bit(b: bool, n: nat) -> Seq<bool> {
    Seq::new(n, |i: int| b)
}

/// A bit of a stream as a number; past the end the stream reads as zeros.
pub open spec fn stream_bit(s: Seq<bool>, i: int) -> nat {
    if 0 <= i < s.len() && s[i] {
        1
    } else {
        0
    }
}

/// The number spelled by the first `m` bits of a stream, most significant first,
/// the stream being continued by zeros.
pub open spec fn prefix_value(s: Seq<bool>, m: nat) -> nat
    decreases m,
{
    if m == 0 {
        0
    } else {
        2 * prefix_value(s, (m - 1) as nat) + stream_bit(s, m - 1)
    }
}

/// The number spelled by all the bits of a sequence.
pub open spec fn bits_value(s: Seq<bool>) -> nat {
    prefix_value(s, s.len())
}

/// Appending a byte appends its eight bits.
pub proof fn lemma_bits_of_bytes_push(bs: Seq<u8>, b: u8)
    ensures
        bits_of_bytes(bs.push(b)) == bits_of_bytes(bs) + byte_bits(b),
{
    let lhs = bits_of_bytes(bs.push(b));
    let rhs = bits_of_bytes(bs) + byte_bits(b);
    assert forall|k: int| 0 <= k < lhs.len() implies lhs[k] == rhs[k] by {
        if k < 8 * bs.len() {
            assert(k / 8 < bs.len());
            assert(bs.push(b)[k / 8] == bs[k / 8]);
        } else {
            let j = k - 8 * bs.len();
            lemma_fundamental_div_mod_converse(k, 8, bs.len() as int, j);
        }
    }
    assert(lhs =~= rhs);
}

proof fn lemma_shift_in(buf: u8, bit: u8, m: u32)
    by (bit_vector)
    requires
        bit <= 1,
        1 <= m <= 7,
    ensures
        (((((buf << 1u8) | bit) as u8) as u64) >> m) & 1u64 == ((buf as u64) >> ((m - 1) as u32)) & 1u64,
{
}

proof fn lemma_shift_in_last(buf: u8, bit: u8)
    by (bit_vector)
    requires
        bit <= 1,
    ensures
        (((((buf << 1u8) | bit) as u8) as u64) >> 0u32) & 1u64 == bit as u64,
{
}

/// Shifting a bit into a partly filled byte appends it to the buffered bits.
pub proof fn lemma_buffer_push(buf: u8, cnt: nat, bit: u8)
    requires
        cnt < 8,
        bit <= 1,
    ensures
        buffer_bits(((buf << 1u8) | bit) as u8, cnt + 1) == buffer_bits(buf, cnt).push(bit == 1),
{
    let nb = ((buf << 1u8) | bit) as u8;
    let lhs = buffer_bits(nb, cnt + 1);
    let rhs = buffer_bits(buf, cnt).push(bit == 1);
    assert forall|j: int| 0 <= j < cnt + 1 implies lhs[j] == rhs[j] by {
        if j < cnt {
            let m = (cnt - j) as u32;
            lemma_shift_in(buf, bit, m);
            assert((7 - (j + 8 - (cnt + 1))) as u32 == m);
            assert((7 - (j + 8 - cnt)) as u32 == (m - 1) as u32);
        } else {
            lemma_shift_in_last(buf, bit);
            assert((7 - (j + 8 - (cnt + 1))) as u32 == 0u32);
        }
    }
    assert(lhs =~= rhs);
}

/// A bit of a byte read with a shift is 0 or 1.
pub proof fn lemma_bit_is_bit(x: u64, k: u32)
    by (bit_vector)
    requires
        k < 64,
    ensures
        (x >> k) & 1u64 <= 1u64,
{
}

/// Two streams that agree on their first `m` bits spell the same prefix value.
pub proof fn lemma_prefix_value_agree(s: Seq<bool>, t: Seq<bool>, m: nat)
    requires
        forall|i: int| 0 <= i < m ==> stream_bit(s, i) == stream_bit(t, i),
    ensures
        prefix_value(s, m) == prefix_value(t, m),
    decreases m,
{
    if m > 0 {
        lemma_prefix_value_agree(s, t, (m - 1) as nat);
    }
}

/// Appending zeros does not change any prefix value.
pub proof fn lemma_prefix_value_zeros(s: Seq<bool>, n: nat, m: nat)
    ensures
        prefix_value(s + repeat_bit(false, n), m) == prefix_value(s, m),
{
    let t = s + repeat_bit(false, n);
    assert forall|i: int| 0 <= i < m implies stream_bit(s, i) == stream_bit(t, i) by {
        if i < s.len() {
            assert(t[i] == s[i]);
        } else if i < t.len() {
            assert(t[i] == false);
        }
    }
    lemma_prefix_value_agree(s, t, m);
}

/// A prefix value of `m` bits is below `2^m`.
pub proof fn lemma_prefix_value_bound(s: Seq<bool>, m: nat)
    ensures
        prefix_value(s, m) < pow2(m),
    decreases m,
{
    if m == 0 {
        vstd::arithmetic::power2::lemma2_to64();
    } else {
        lemma_prefix_value_bound(s, (m - 1) as nat);
        lemma_pow2_unfold(m);
    }
}

/// Reading `j` more bits multiplies the prefix value by `2^j` and adds less than `2^j`.
pub proof fn lemma_prefix_value_extend(s: Seq<bool>, m: nat, j: nat)
    ensures
        prefix_value(s, m) * pow2(j) <= prefix_value(s, m + j),
        prefix_value(s, m + j) < (prefix_value(s, m) + 1) * pow2(j),
        prefix_value(s, m) == prefix_value(s, m + j) / pow2(j),
    decreases j,
{
    let v = prefix_value(s, m);
    if j == 0 {
        vstd::arithmetic::power2::lemma2_to64();
        assert(prefix_value(s, m + j) == v);
    } else {
        lemma_prefix_value_extend(s, m, (j - 1) as nat);
        lemma_pow2_unfold(j);
        let p = pow2((j - 1) as nat);
        let w = prefix_value(s, (m + j - 1) as nat);
        assert(prefix_value(s, m + j) == 2 * w + stream_bit(s, m + j - 1));
        assert(v * pow2(j) == 2 * (v * p)) by (nonlinear_arith)
            requires
                pow2(j) == 2 * p,
        ;
        assert((v + 1) * pow2(j) == 2 * ((v + 1) * p)) by (nonlinear_arith)
            requires
                pow2(j) == 2 * p,
        ;
    }
    lemma_pow2_pos(j);
    let r = prefix_value(s, m + j) - v * pow2(j);
    assert(prefix_value(s, m + j) == v * pow2(j) + r);
    assert(r < pow2(j)) by (nonlinear_arith)
        requires
            prefix_value(s, m + j) < (v + 1) * pow2(j),
            r == prefix_value(s, m + j) - v * pow2(j),
    ;
    lemma_fundamental_div_mod_converse(prefix_value(s, m + j) as int, pow2(j) as int, v as int, r);
}

/// Past the end of a sequence its prefix value only gains zero bits.
pub proof fn lemma_prefix_value_past_end(s: Seq<bool>, j: nat)
    ensures
        prefix_value(s, s.len() + j) == bits_value(s) * pow2(j),
    decreases j,
{
    if j == 0 {
        vstd::arithmetic::power2::lemma2_to64();
    } else {
        lemma_prefix_value_past_end(s, (j - 1) as nat);
        lemma_pow2_unfold(j);
        let p = pow2((j - 1) as nat);
        assert(prefix_value(s, s.len() + j) == 2 * prefix_value(s, (s.len() + j - 1) as nat));
        assert(bits_value(s) * pow2(j) == 2 * (bits_value(s) * p)) by (nonlinear_arith)
            requires
                pow2(j) == 2 * p,
        ;
    }
}

/// The value of a concatenation.
pub proof fn lemma_bits_value_concat(a: Seq<bool>, b: Seq<bool>)
    ensures
        bits_value(a + b) == bits_value(a) * pow2(b.len()) + bits_value(b),
    decreases b.len(),
{
    let ab = a + b;
    if b.len() == 0 {
        vstd::arithmetic::power2::lemma2_to64();
        assert(ab =~= a);
    } else {
        let b1 = b.drop_last();
        lemma_bits_value_concat(a, b1);
        let ab1 = a + b1;
        // the first |ab| - 1 bits of ab are those of ab1
        assert forall|i: int| 0 <= i < ab1.len() implies stream_bit(ab, i) == stream_bit(ab1, i) by {
            if i < a.len() {
            } else {
                assert(ab[i] == b[i - a.len()]);
                assert(ab1[i] == b1[i - a.len()]);
            }
        }
        lemma_prefix_value_agree(ab, ab1, ab1.len());
        assert forall|i: int| 0 <= i < b1.len() implies stream_bit(b, i) == stream_bit(b1, i) by {}
        lemma_prefix_value_agree(b, b1, b1.len());
        lemma_pow2_unfold(b.len());
        let p = pow2(b1.len());
        assert(ab[ab.len() - 1] == b[b.len() - 1]);
        assert(bits_value(ab) == 2 * bits_value(ab1) + stream_bit(b, b.len() - 1));
        assert(bits_value(b) == 2 * bits_value(b1) + stream_bit(b, b.len() - 1));
        assert(bits_value(a) * pow2(b.len()) == 2 * (bits_value(a) * p)) by (nonlinear_arith)
            requires
                pow2(b.len()) == 2 * p,
        ;
    }
}

/// A run of ones spells `2^n - 1`, a run of zeros spells zero.
pub proof fn lemma_bits_value_repeat(b: bool, n: nat)
    ensures
        bits_value(repeat_bit(b, n)) == if b {
            pow2(n) - 1
        } else {
            0
        },
    decreases n,
{
    let s = repeat_bit(b, n);
    if n == 0 {
        vstd::arithmetic::power2::lemma2_to64();
    } else {
        let s1 = repeat_bit(b, (n - 1) as nat);
        lemma_bits_value_repeat(b, (n - 1) as nat);
        assert forall|i: int| 0 <= i < n - 1 implies stream_bit(s, i) == stream_bit(s1, i) by {}
        lemma_prefix_value_agree(s, s1, (n - 1) as nat);
        lemma_pow2_unfold(n);
    }
}

} // verus!
