use vstd::prelude::*;
use crate::interval::QUARTER;

verus! {

/// A ternary symbol is one of -1, 0, +1.
pub open spec fn is_ternary(s: i32) -> bool {
    -1 <= s <= 1
}

/// Every element of the sequence is a ternary symbol.
pub open spec fn all_ternary(data: Seq<i32>) -> bool {
    forall|i: int| 0 <= i < data.len() ==> is_ternary(#[trigger] data[i])
}

/// Slot of a symbol in the count table: -1 -> 0, 0 -> 1, +1 -> 2.
pub open spec fn symbol_index(s: i32) -> int {
    s + 1
}

/// Symbol stored in a slot of the count table.
pub open spec fn index_symbol(i: int) -> i32 {
    (i - 1) as i32
}

/// A count model: three counts, none of them zero.
pub open spec fn model_ok(c: Seq<nat>) -> bool {
    &&& c.len() == 3
    &&& c[0] >= 1
    &&& c[1] >= 1
    &&& c[2] >= 1
}

/// Sum of the three counts.
pub open spec fn model_total(c: Seq<nat>) -> nat {
    c[0] + c[1] + c[2]
}

/// Lower end of a symbol's cumulative range.
pub open spec fn sym_low(c: Seq<nat>, s: i32) -> nat {
    if s == -1 {
        0
    } else if s == 0 {
        c[0]
    } else {
        c[0] + c[1]
    }
}

/// Upper end (exclusive) of a symbol's cumulative range.
pub open spec fn sym_high(c: Seq<nat>, s: i32) -> nat {
    sym_low(c, s) + c[symbol_index(s)]
}

/// The symbol whose cumulative range holds `v`; values past the total map to +1.
pub open spec fn symbol_for(c: Seq<nat>, v: int) -> i32 {
    if v < c[0] {
        -1i32
    } else if v < c[0] + c[1] {
        0i32
    } else {
        1i32
    }
}

/// Counts after one more occurrence of `s`.
pub open spec fn model_update(c: Seq<nat>, s: i32) -> Seq<nat> {
    c.update(symbol_index(s), c[symbol_index(s)] + 1)
}

/// Half of a count, but never below one.
pub open spec fn halve(n: nat) -> nat {
    if n / 2 >= 1 {
        n / 2
    } else {
        1
    }
}

/// Counts after rescaling: each count halved, with a floor of one.
pub open spec fn model_rescale(c: Seq<nat>) -> Seq<nat> {
    seq![halve(c[0]), halve(c[1]), halve(c[2])]
}

/// Counts after the adaptive coder has seen `s`: one more occurrence, then a
/// rescale once the total passes a quarter of the window.
pub open spec fn adapt(c: Seq<nat>, s: i32) -> Seq<nat> {
    let u = model_update(c, s);
    if model_total(u) > QUARTER {
        model_rescale(u)
    } else {
        u
    }
}

/// The uniform counts: one of each symbol.
pub open spec fn model_uniform() -> Seq<nat> {
    seq![1nat, 1nat, 1nat]
}

/// Number of occurrences of `v` in `data`.
pub open spec fn occurrences(data: Seq<i32>, v: i32) -> nat
    decreases data.len(),
{
    if data.len() == 0 {
        0
    } else {
        occurrences(data.drop_last(), v) + if data.last() == v {
            1nat
        } else {
            0nat
        }
    }
}

/// A count, raised to one when it is zero.
pub open spec fn at_least_one(n: nat) -> nat {
    if n == 0 {
        1
    } else {
        n
    }
}

/// Counts of a data sequence, with no count left at zero.
pub open spec fn model_from_data(data: Seq<i32>) -> Seq<nat> {
    seq![
        at_least_one(occurrences(data, -1i32)),
        at_least_one(occurrences(data, 0i32)),
        at_least_one(occurrences(data, 1i32)),
    ]
}

/// Every prefix of ternary data is ternary data.
pub proof fn lemma_all_ternary_prefix(data: Seq<i32>, k: int)
    requires
        all_ternary(data),
        0 <= k <= data.len(),
    ensures
        all_ternary(data.take(k)),
        k < data.len() ==> is_ternary(data[k]),
{
    assert forall|i: int| 0 <= i < k implies is_ternary(#[trigger] data.take(k)[i]) by {
        assert(data.take(k)[i] == data[i]);
    }
}

/// Slots and symbols are inverse to each other.
pub proof fn lemma_symbol_index_inverse(s: i32, i: int)
    ensures
        is_ternary(s) ==> 0 <= symbol_index(s) < 3 && index_symbol(symbol_index(s)) == s,
        0 <= i < 3 ==> is_ternary(index_symbol(i)) && symbol_index(index_symbol(i)) == i,
{
}

/// The occurrences of the three symbols add up to the length of ternary data.
pub proof fn lemma_occurrences_sum(data: Seq<i32>)
    requires
        all_ternary(data),
    ensures
        occurrences(data, -1i32) + occurrences(data, 0i32) + occurrences(data, 1i32) == data.len(),
    decreases data.len(),
{
    if data.len() > 0 {
        let d = data.drop_last();
        lemma_all_ternary_prefix(data, data.len() - 1);
        assert(d =~= data.take(data.len() - 1));
        lemma_occurrences_sum(d);
    }
}

/// Adapting to a symbol keeps every count positive and, thanks to the rescale,
/// keeps the total within a quarter of the window.
pub proof fn lemma_adapt_bounded(c: Seq<nat>, s: i32)
    requires
        model_ok(c),
        model_total(c) <= QUARTER,
        is_ternary(s),
    ensures
        model_ok(adapt(c, s)),
        model_total(adapt(c, s)) <= QUARTER,
{
    let u = model_update(c, s);
    assert(model_total(u) == model_total(c) + 1);
    if model_total(u) > QUARTER {
        let r = model_rescale(u);
        assert(halve(u[0]) <= u[0] / 2 + 1);
        assert(halve(u[1]) <= u[1] / 2 + 1);
        assert(halve(u[2]) <= u[2] / 2 + 1);
    }
}

/// The three cumulative ranges partition `[0, total)` in symbol order, each as
/// wide as its symbol's count, so none of them is empty.
pub proof fn lemma_ranges_partition(c: Seq<nat>)
    requires
        model_ok(c),
    ensures
        sym_low(c, -1i32) == 0,
        sym_high(c, -1i32) == sym_low(c, 0i32),
        sym_high(c, 0i32) == sym_low(c, 1i32),
        sym_high(c, 1i32) == model_total(c),
        forall|s: i32| is_ternary(s) ==> sym_high(c, s) - sym_low(c, s) == c[symbol_index(s)] >= 1,
{
}

/// Looking up a cumulative value inverts the ranges: every value inside a
/// symbol's range maps back to that symbol.
pub proof fn lemma_symbol_for_range(c: Seq<nat>, s: i32, v: int)
    requires
        model_ok(c),
        is_ternary(s),
        sym_low(c, s) <= v < sym_high(c, s),
    ensures
        symbol_for(c, v) == s,
{
}

/// Rescaling keeps every count at least one, never raises a count, keeps the
/// order between counts, and brings the total down to at most half plus three.
pub proof fn lemma_rescale_properties(c: Seq<nat>)
    requires
        model_ok(c),
    ensures
        model_ok(model_rescale(c)),
        forall|i: int| 0 <= i < 3 ==> model_rescale(c)[i] <= c[i],
        forall|i: int, j: int|
            0 <= i < 3 && 0 <= j < 3 && c[i] <= c[j] ==> model_rescale(c)[i] <= model_rescale(c)[j],
        model_total(model_rescale(c)) <= model_total(c) / 2 + 3,
{
    let r = model_rescale(c);
    assert forall|i: int, j: int| 0 <= i < 3 && 0 <= j < 3 && c[i] <= c[j] implies r[i] <= r[j] by {
        assert(r[i] == halve(c[i]));
        assert(r[j] == halve(c[j]));
        assert(c[i] / 2 <= c[j] / 2);
    }
    assert forall|i: int| 0 <= i < 3 implies r[i] <= c[i] by {
        assert(r[i] == halve(c[i]));
    }
}

/// What the adaptive coder does after each symbol: one more occurrence of
/// the symbol; then, only when the total passes a quarter of the window, every
/// count is halved (rounding down, never below one).
pub proof fn lemma_adapt_law(c: Seq<nat>, s: i32)
    requires
        c.len() == 3,
        is_ternary(s),
    ensures
        adapt(c, s).len() == 3,
        model_total(c) + 1 <= QUARTER ==> adapt(c, s)[symbol_index(s)] == c[symbol_index(s)] + 1 && (forall|
            i: int,
        | 0 <= i < 3 && i != symbol_index(s) ==> adapt(c, s)[i] == c[i]),
        model_total(c) + 1 > QUARTER ==> forall|i: int|
            #![trigger adapt(c, s)[i]]
            0 <= i < 3 ==> {
                let u = c[i] + if i == symbol_index(s) {
                    1int
                } else {
                    0int
                };
                &&& u >= 2 ==> 2 * adapt(c, s)[i] <= u <= 2 * adapt(c, s)[i] + 1
                &&& u < 2 ==> adapt(c, s)[i] == 1
            },
{
    lemma_update_law(c, s);
    let u = model_update(c, s);
    if model_total(c) + 1 > QUARTER {
        lemma_rescale_law(u);
        assert forall|i: int| 0 <= i < 3 implies u[i] == c[i] + if i == symbol_index(s) {
            1int
        } else {
            0int
        } by {}
    }
}

/// An update adds exactly one to the updated symbol's count and to the total,
/// and leaves the other counts alone.
pub proof fn lemma_update_law(c: Seq<nat>, s: i32)
    requires
        c.len() == 3,
        is_ternary(s),
    ensures
        model_update(c, s).len() == 3,
        model_update(c, s)[symbol_index(s)] == c[symbol_index(s)] + 1,
        forall|i: int| 0 <= i < 3 && i != symbol_index(s) ==> model_update(c, s)[i] == c[i],
        model_total(model_update(c, s)) == model_total(c) + 1,
{
}

/// Rescaling halves every count exactly (rounding down), except that a count
/// never drops below one: a count of two or more becomes its integer half, a
/// count below two becomes one.
pub proof fn lemma_rescale_law(c: Seq<nat>)
    requires
        c.len() == 3,
    ensures
        model_rescale(c).len() == 3,
        forall|i: int|
            0 <= i < 3 && c[i] >= 2 ==> 2 * model_rescale(c)[i] <= c[i] <= 2 * model_rescale(c)[i] + 1,
        forall|i: int| 0 <= i < 3 && c[i] < 2 ==> model_rescale(c)[i] == 1,
        model_total(model_rescale(c)) == model_rescale(c)[0] + model_rescale(c)[1] + model_rescale(c)[2],
{
    let r = model_rescale(c);
    assert forall|i: int| 0 <= i < 3 && c[i] >= 2 implies 2 * r[i] <= c[i] <= 2 * r[i] + 1 by {
        assert(r[i] == halve(c[i]));
    }
    assert forall|i: int| 0 <= i < 3 && c[i] < 2 implies r[i] == 1 by {
        assert(r[i] == halve(c[i]));
    }
}

/// The number of occurrences grows by one exactly when the appended element
/// is the one counted, and starts from zero.
pub proof fn lemma_occurrences_push(data: Seq<i32>, x: i32, v: i32)
    ensures
        occurrences(Seq::<i32>::empty(), v) == 0,
        occurrences(data.push(x), v) == occurrences(data, v) + if x == v {
            1nat
        } else {
            0nat
        },
{
    assert(data.push(x).drop_last() =~= data);
}

/// The counts built from ternary data are the numbers of occurrences of the
/// symbols, a symbol that does not occur getting a count of one; so the total
/// is the length of the data plus the number of symbols that do not occur.
pub proof fn lemma_from_data_law(data: Seq<i32>)
    requires
        all_ternary(data),
    ensures
        model_from_data(data).len() == 3,
        forall|s: i32|
            is_ternary(s) && occurrences(data, s) >= 1 ==> model_from_data(data)[symbol_index(s)]
                == occurrences(data, s),
        forall|s: i32| is_ternary(s) && occurrences(data, s) == 0 ==> model_from_data(data)[symbol_index(s)] == 1,
        model_total(model_from_data(data)) == data.len() + (if occurrences(data, -1i32) == 0 {
            1int
        } else {
            0
        }) + (if occurrences(data, 0i32) == 0 {
            1int
        } else {
            0
        }) + (if occurrences(data, 1i32) == 0 {
            1int
        } else {
            0
        }),
{
    lemma_occurrences_sum(data);
    let m = model_from_data(data);
    assert forall|s: i32| is_ternary(s) && occurrences(data, s) >= 1 implies m[symbol_index(s)] == occurrences(data, s) by {
        if s == -1 {
        } else if s == 0 {
        } else {
        }
    }
    assert forall|s: i32| is_ternary(s) && occurrences(data, s) == 0 implies m[symbol_index(s)] == 1 by {
        if s == -1 {
        } else if s == 0 {
        } else {
        }
    }
}

/// Frequency table for ternary symbols {-1, 0, +1}.
#[derive(Debug)]
pub struct FrequencyTable {
    /// Counts indexed: -1 -> 0, 0 -> 1, +1 -> 2
    counts: [u64; 3],
    total: u64,
}

impl View for FrequencyTable {
    type V = Seq<nat>;

    closed spec fn view(&self) -> Seq<nat> {
        seq![self.counts[0] as nat, self.counts[1] as nat, self.counts[2] as nat]
    }
}

impl Clone for FrequencyTable {
    fn clone(&self) -> (r: Self)
        ensures
            r == *self,
    {
        FrequencyTable { counts: self.counts, total: self.total }
    }
}

impl FrequencyTable {
    /// The table is consistent: no count is zero and the stored total is their sum.
    pub open spec fn wf(&self) -> bool {
        model_ok(self@) && self.consistent()
    }

    /// The stored total is the sum of the counts.
    pub closed spec fn consistent(&self) -> bool {
        self.total as nat == model_total(self@)
    }

    /// Create a new frequency table with uniform counts.
    pub fn uniform() -> (t: Self)
        ensures
            t.wf(),
            t@ == model_uniform(),
    {
        let t = FrequencyTable { counts: [1u64, 1u64, 1u64], total: 3 };
        assert(t@ =~= model_uniform());
        t
    }

    /// Build a frequency table from ternary data.
    pub fn from_data(data: &[i32]) -> (t: Self)
        requires
            all_ternary(data@),
            data@.len() + 2 <= u64::MAX,
        ensures
            t.wf(),
            t@ == model_from_data(data@),
            forall|s: i32|
                is_ternary(s) && occurrences(data@, s) >= 1 ==> t@[symbol_index(s)] == occurrences(data@, s),
            forall|s: i32| is_ternary(s) && occurrences(data@, s) == 0 ==> t@[symbol_index(s)] == 1,
    {
        let mut counts: [u64; 3] = [0u64, 0u64, 0u64];
        let mut i: usize = 0;
        while i < data.len()
            invariant
                0 <= i <= data.len(),
                all_ternary(data@),
                data@.len() + 2 <= u64::MAX,
                counts@.len() == 3,
                counts@[0] == occurrences(data@.take(i as int), -1i32),
                counts@[1] == occurrences(data@.take(i as int), 0i32),
                counts@[2] == occurrences(data@.take(i as int), 1i32),
            decreases data.len() - i,
        {
            let ghost pre = data@.take(i as int);
            let ghost next = data@.take(i + 1);
            assert(next.drop_last() =~= pre);
            assert(is_ternary(data@[i as int]));
            proof {
                lemma_all_ternary_prefix(data@, i as int);
                lemma_occurrences_sum(pre);
            }
            let idx: usize = ternary_to_idx(data[i]);
            counts[idx] = counts[idx] + 1;
            i = i + 1;
        }
        assert(data@.take(data.len() as int) =~= data@);
        proof {
            lemma_occurrences_sum(data@);
        }
        let mut j: usize = 0;
        while j < 3
            invariant
                0 <= j <= 3,
                counts@.len() == 3,
                forall|k: int| 0 <= k < j ==> counts@[k] == at_least_one(occurrences(data@, index_symbol(k))),
                forall|k: int| j <= k < 3 ==> counts@[k] == occurrences(data@, index_symbol(k)),
            decreases 3 - j,
        {
            if counts[j] == 0 {
                counts[j] = 1;
            }
            j = j + 1;
        }
        let total: u64 = counts[0] + counts[1] + counts[2];
        let t = FrequencyTable { counts, total };
        assert(t@ =~= model_from_data(data@));
        proof {
            lemma_from_data_law(data@);
        }
        t
    }

    /// Get the cumulative frequency range [low, high) for a symbol.
    pub fn range(&self, symbol: i32) -> (r: (u64, u64))
        requires
            self.wf(),
            is_ternary(symbol),
        ensures
            r.0 == sym_low(self@, symbol),
            r.1 == sym_high(self@, symbol),
    {
        let idx: usize = ternary_to_idx(symbol);
        let mut low: u64 = 0;
        let mut k: usize = 0;
        while k < idx
            invariant
                0 <= k <= idx <= 2,
                self.wf(),
                low == sym_low(self@, index_symbol(k as int)),
            decreases idx - k,
        {
            low = low + self.counts[k];
            k = k + 1;
        }
        let high: u64 = low + self.counts[idx];
        (low, high)
    }

    /// Update the frequency table with a new symbol (adaptive).
    pub fn update(&mut self, symbol: i32)
        requires
            old(self).wf(),
            is_ternary(symbol),
            model_total(old(self)@) < u64::MAX,
        ensures
            final(self).wf(),
            final(self)@ == model_update(old(self)@, symbol),
            final(self)@[symbol_index(symbol)] == old(self)@[symbol_index(symbol)] + 1,
            forall|i: int| 0 <= i < 3 && i != symbol_index(symbol) ==> final(self)@[i] == old(self)@[i],
            model_total(final(self)@) == model_total(old(self)@) + 1,
    {
        let idx: usize = ternary_to_idx(symbol);
        self.counts[idx] = self.counts[idx] + 1;
        self.total = self.total + 1;
        assert(self@ =~= model_update(old(self)@, symbol));
        proof {
            lemma_update_law(old(self)@, symbol);
        }
    }

    /// Rescale frequencies to prevent overflow (divide by 2, min 1).
    pub fn rescale(&mut self)
        requires
            old(self).wf(),
        ensures
            final(self).wf(),
            final(self)@ == model_rescale(old(self)@),
            forall|i: int|
                0 <= i < 3 && old(self)@[i] >= 2 ==> 2 * final(self)@[i] <= old(self)@[i] <= 2 * final(self)@[i]
                    + 1,
            forall|i: int| 0 <= i < 3 && old(self)@[i] < 2 ==> final(self)@[i] == 1,
    {
        let mut k: usize = 0;
        while k < 3
            invariant
                0 <= k <= 3,
                self.counts@.len() == 3,
                forall|i: int| 0 <= i < k ==> self.counts@[i] as nat == halve(old(self).counts@[i] as nat),
                forall|i: int| k <= i < 3 ==> self.counts@[i] == old(self).counts@[i],
            decreases 3 - k,
        {
            self.counts[k] = (self.counts[k] / 2).max(1);
            k = k + 1;
        }
        self.total = self.counts[0] + self.counts[1] + self.counts[2];
        assert(self@ =~= model_rescale(old(self)@));
        proof {
            lemma_rescale_law(old(self)@);
        }
    }

    /// Get total count.
    pub fn total(&self) -> (t: u64)
        requires
            self.wf(),
        ensures
            t == model_total(self@),
    {
        self.total
    }

    /// Get count for a specific symbol.
    pub fn count(&self, symbol: i32) -> (n: u64)
        requires
            self.wf(),
            is_ternary(symbol),
        ensures
            n == self@[symbol_index(symbol)],
    {
        self.counts[ternary_to_idx(symbol)]
    }

    /// Find symbol for a given cumulative value.
    pub fn symbol_for_cumulative(&self, value: u64) -> (s: i32)
        requires
            self.wf(),
        ensures
            s == symbol_for(self@, value as int),
    {
        let mut cumulative: u64 = 0;
        let mut idx: usize = 0;
        while idx < 3
            invariant
                0 <= idx <= 3,
                self.wf(),
                cumulative == sym_low(self@, index_symbol(idx as int)) || idx == 3,
                idx == 3 ==> cumulative == model_total(self@),
                idx >= 1 ==> value >= self@[0],
                idx >= 2 ==> value >= self@[0] + self@[1],
            decreases 3 - idx,
        {
            cumulative = cumulative + self.counts[idx];
            if value < cumulative {
                return idx_to_ternary(idx);
            }
            idx = idx + 1;
        }
        idx_to_ternary(2)
    }
}

fn ternary_to_idx(v: i32) -> (idx: usize)
    requires
        is_ternary(v),
    ensures
        idx == symbol_index(v),
{
    match v {
        -1 => 0,
        0 => 1,
        _ => 2,
    }
}

fn idx_to_ternary(idx: usize) -> (s: i32)
    requires
        idx < 3,
    ensures
        s == index_symbol(idx as int),
        is_ternary(s),
{
    match idx {
        0 => -1,
        1 => 0,
        _ => 1,
    }
}

} // verus!
