use vstd::prelude::*;
use crate::interval::{QUARTER, dec_run, dec_symbol, enc_run, next_counts};
use crate::table::{
    adapt, all_ternary, index_symbol, is_ternary, model_total, model_uniform, model_update, occurrences,
    lemma_all_ternary_prefix, lemma_occurrences_push, lemma_occurrences_sum,
    lemma_update_law,
};

verus! {

/// In static mode the encoder codes every symbol with the counts it was given:
/// after any prefix of the data the counts in use are still the given ones.
pub proof fn lemma_static_encoder_counts(data: Seq<i32>, c0: Seq<nat>)
    ensures
        enc_run(data, c0, false).1 == c0,
    decreases data.len(),
{
    if data.len() > 0 {
        lemma_static_encoder_counts(data.drop_last(), c0);
    }
}

/// In static mode the decoder reads every symbol with the counts it was given.
pub proof fn lemma_static_decoder_counts(s: Seq<bool>, n: nat, c0: Seq<nat>)
    ensures
        dec_run(s, n, c0, false).2 == c0,
    decreases n,
{
    if n > 0 {
        lemma_static_decoder_counts(s, (n - 1) as nat, c0);
    }
}

/// In adaptive mode, starting from one of each symbol, every symbol coded adds
/// one to its count: as long as the total stays within a quarter of the window
/// (so no rescale was due), the count of each symbol in use after a prefix is
/// one more than its number of occurrences in the prefix.
pub proof fn lemma_adaptive_encoder_counts(data: Seq<i32>)
    requires
        all_ternary(data),
        data.len() + 3 <= QUARTER,
    ensures
        enc_run(data, model_uniform(), true).1.len() == 3,
        forall|i: int|
            0 <= i < 3 ==> #[trigger] enc_run(data, model_uniform(), true).1[i] == 1 + occurrences(
                data,
                index_symbol(i),
            ),
    decreases data.len(),
{
    if data.len() > 0 {
        let d = data.drop_last();
        let x = data.last();
        lemma_all_ternary_prefix(data, data.len() - 1);
        assert(d =~= data.take(data.len() - 1));
        lemma_adaptive_encoder_counts(d);
        let c = enc_run(d, model_uniform(), true).1;
        lemma_occurrences_sum(d);
        assert(model_total(c) == 3 + d.len()) by {
            assert(c[0] == 1 + occurrences(d, index_symbol(0)));
            assert(c[1] == 1 + occurrences(d, index_symbol(1)));
            assert(c[2] == 1 + occurrences(d, index_symbol(2)));
            assert(index_symbol(0) == -1i32 && index_symbol(1) == 0i32 && index_symbol(2) == 1i32);
        }
        lemma_update_law(c, x);
        assert(adapt(c, x) == model_update(c, x));
        assert(data == d.push(x));
        assert forall|i: int| 0 <= i < 3 implies #[trigger] enc_run(data, model_uniform(), true).1[i] == 1
            + occurrences(data, index_symbol(i)) by {
            lemma_occurrences_push(d, x, index_symbol(i));
            assert(c[i] == 1 + occurrences(d, index_symbol(i)));
        }
    }
}

/// The decoder's counts follow the same rule over the symbols it has read.
pub proof fn lemma_adaptive_decoder_counts(s: Seq<bool>, n: nat)
    requires
        n + 3 <= QUARTER,
    ensures
        dec_run(s, n, model_uniform(), true).0.len() == n,
        all_ternary(dec_run(s, n, model_uniform(), true).0),
        dec_run(s, n, model_uniform(), true).2.len() == 3,
        forall|i: int|
            0 <= i < 3 ==> #[trigger] dec_run(s, n, model_uniform(), true).2[i] == 1 + occurrences(
                dec_run(s, n, model_uniform(), true).0,
                index_symbol(i),
            ),
    decreases n,
{
    if n > 0 {
        lemma_adaptive_decoder_counts(s, (n - 1) as nat);
        let (out, d, c) = dec_run(s, (n - 1) as nat, model_uniform(), true);
        let x = dec_symbol(d, c);
        assert(is_ternary(x));
        let out2 = out.push(x);
        assert(dec_run(s, n, model_uniform(), true).0 == out2);
        assert(all_ternary(out2)) by {
            assert forall|k: int| 0 <= k < out2.len() implies is_ternary(#[trigger] out2[k]) by {
                if k < out.len() {
                    assert(out2[k] == out[k]);
                }
            }
        }
        lemma_occurrences_sum(out);
        assert(model_total(c) == 3 + out.len()) by {
            assert(c[0] == 1 + occurrences(out, index_symbol(0)));
            assert(c[1] == 1 + occurrences(out, index_symbol(1)));
            assert(c[2] == 1 + occurrences(out, index_symbol(2)));
            assert(index_symbol(0) == -1i32 && index_symbol(1) == 0i32 && index_symbol(2) == 1i32);
        }
        lemma_update_law(c, x);
        assert(next_counts(c, x, true) == model_update(c, x));
        assert forall|i: int| 0 <= i < 3 implies #[trigger] dec_run(s, n, model_uniform(), true).2[i] == 1
            + occurrences(out2, index_symbol(i)) by {
            lemma_occurrences_push(out, x, index_symbol(i));
            assert(c[i] == 1 + occurrences(out, index_symbol(i)));
        }
    }
}

} // verus!
