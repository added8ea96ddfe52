use vstd::prelude::*;
use vstd::seq_lib::lemma_multiset_commutative;
use vstd::seq_lib::to_multiset_build;
use vstd::seq_lib::to_multiset_insert;
use vstd::arithmetic::div_mod::lemma_div_is_ordered;
use vstd::arithmetic::div_mod::lemma_div_multiples_vanish;
use vstd::arithmetic::mul::lemma_mul_inequality;

verus! {

/// Scale of a percentile rank: a rank of one hundred percent is written as
/// `100 * PERCENT_SCALE` units, so ranks carry six decimal places.
pub const PERCENT_SCALE: u64 = 1_000_000;

/// Largest admissible percentile rank, one hundred percent.
pub const PERCENT_MAX: u64 = 100_000_000;

/// Every element is no larger than any element after it.
pub open spec fn sorted_ascending(s: Seq<u32>) -> bool {
    forall|i: int, j: int| 0 <= i <= j < s.len() ==> s[i] <= s[j]
}

/// Appending an element no smaller than every element keeps the order.
proof fn lemma_sorted_push(s: Seq<u32>, v: u32)
    requires
        sorted_ascending(s),
        s.len() == 0 || s.last() <= v,
    ensures
        sorted_ascending(s.push(v)),
{
    let t = s.push(v);
    assert forall|i: int, j: int| 0 <= i <= j < t.len() implies t[i] <= t[j] by {
        if j == s.len() {
            if i < s.len() {
                assert(s[i] <= s.last());
            }
        } else {
            assert(t[i] == s[i] && t[j] == s[j]);
        }
    }
}

/// Merges two ascending runs into one ascending run holding exactly the
/// elements of both.
fn merge_runs(a: Vec<u32>, b: Vec<u32>) -> (out: Vec<u32>)
    requires
        sorted_ascending(a@),
        sorted_ascending(b@),
    ensures
        sorted_ascending(out@),
        out@.to_multiset() == (a@ + b@).to_multiset(),
        out@.len() == a@.len() + b@.len(),
{
    let alen = a.len();
    let blen = b.len();
    let mut out: Vec<u32> = Vec::new();
    let mut i: usize = 0;
    let mut j: usize = 0;
    proof {
        assert(a@.take(0) + b@.take(0) =~= Seq::<u32>::empty());
        assert(out@ =~= Seq::<u32>::empty());
    }
    while i < alen || j < blen
        invariant
            i <= alen == a@.len(),
            j <= blen == b@.len(),
            sorted_ascending(a@),
            sorted_ascending(b@),
            sorted_ascending(out@),
            out@.len() == i + j,
            out@.to_multiset() == (a@.take(i as int) + b@.take(j as int)).to_multiset(),
            out@.len() > 0 ==> forall|k: int| i <= k < a@.len() ==> out@.last() <= a@[k],
            out@.len() > 0 ==> forall|k: int| j <= k < b@.len() ==> out@.last() <= b@[k],
        decreases (alen - i) + (blen - j),
    {
        let ghost prev = out@;
        let ghost merged = a@.take(i as int) + b@.take(j as int);
        if i < alen && (j >= blen || a[i] <= b[j]) {
            let v = a[i];
            out.push(v);
            i = i + 1;
            proof {
                lemma_sorted_push(prev, v);
                to_multiset_build(prev, v);
                merged.insert_ensures((i - 1) as int, v);
                to_multiset_insert(merged, (i - 1) as int, v);
                assert(merged.insert((i - 1) as int, v) =~= a@.take(i as int) + b@.take(
                    j as int,
                ));
                assert(out@.to_multiset() == (a@.take(i as int) + b@.take(j as int)).to_multiset());
            }
        } else {
            let v = b[j];
            out.push(v);
            j = j + 1;
            proof {
                lemma_sorted_push(prev, v);
                to_multiset_build(prev, v);
                to_multiset_build(merged, v);
                assert(merged.push(v) =~= a@.take(i as int) + b@.take(j as int));
                assert(out@.to_multiset() == (a@.take(i as int) + b@.take(j as int)).to_multiset());
            }
        }
    }
    proof {
        assert(a@.take(i as int) + b@.take(j as int) =~= a@ + b@);
    }
    out
}

/// Sorts an owned run by splitting, sorting the halves, and merging.
fn merge_sort_run(v: Vec<u32>) -> (out: Vec<u32>)
    ensures
        sorted_ascending(out@),
        out@.to_multiset() == v@.to_multiset(),
        out@.len() == v@.len(),
    decreases v@.len(),
{
    let ghost orig = v@;
    if v.len() <= 1 {
        return v;
    }
    let mid = v.len() / 2;
    let mut left = v;
    let right = left.split_off(mid);
    let ghost lv = left@;
    let ghost rv = right@;
    let ls = merge_sort_run(left);
    let rs = merge_sort_run(right);
    let out = merge_runs(ls, rs);
    proof {
        assert(lv + rv =~= orig);
        lemma_multiset_commutative(ls@, rs@);
        lemma_multiset_commutative(lv, rv);
    }
    out
}

/// Sorts the samples ascending.  The result holds exactly the input
/// values, with multiplicity.
pub fn sort_ascending(input: &Vec<u32>) -> (out: Vec<u32>)
    ensures
        sorted_ascending(out@),
        out@.to_multiset() == input@.to_multiset(),
        out@.len() == input@.len(),
{
    let n = input.len();
    let mut work: Vec<u32> = Vec::with_capacity(n);
    let mut i: usize = 0;
    while i < n
        invariant
            i <= n == input@.len(),
            work@.len() == i,
            forall|k: int| 0 <= k < i ==> work@[k] == input@[k],
        decreases n - i,
    {
        work.push(input[i]);
        i = i + 1;
    }
    proof {
        assert(work@ =~= input@);
    }
    merge_sort_run(work)
}

/// Index of the order statistic that a percentile rank selects from a
/// sorted sequence of `n` samples: the floor of `(n - 1) * rank`, with the
/// rank read as a fraction of one hundred percent.
pub open spec fn spec_percentile_index(n: int, rank: int) -> int {
    ((n - 1) * rank) / (PERCENT_MAX as int)
}

/// A sorted index over the luminance of every pixel of one buffer
/// snapshot, supporting percentile queries.
///
/// Luminance samples enter as order-preserving integer keys: the caller
/// maps each of its numeric samples to a `u32` key such that comparing
/// keys agrees with comparing samples.  The histogram itself never
/// inspects a key beyond its order.
pub struct Histogram {
    pub luma_vals: Vec<u32>,
}

impl Histogram {
    /// The sample store is non-empty and sorted ascending.
    pub open spec fn wf(self) -> bool {
        &&& 1 <= self.luma_vals@.len()
        &&& sorted_ascending(self.luma_vals@)
    }

    /// The luminance key a percentile rank resolves to.
    pub open spec fn spec_percentile(self, rank: int) -> u32 {
        self.luma_vals@[spec_percentile_index(self.luma_vals@.len() as int, rank)]
    }

    /// Builds the histogram from one luminance sample per pixel: the store
    /// becomes the input sorted ascending.  An empty input is a caller
    /// defect, excluded here.
    pub fn new(samples: &Vec<u32>) -> (h: Histogram)
        requires
            1 <= samples@.len(),
        ensures
            h.wf(),
            h.luma_vals@.len() == samples@.len(),
            h.luma_vals@.to_multiset() == samples@.to_multiset(),
            sorted_ascending(h.luma_vals@),
    {
        Histogram { luma_vals: sort_ascending(samples) }
    }

    /// The selected index never leaves the store.
    proof fn lemma_index_in_range(self, rank: int)
        requires
            self.wf(),
            0 <= rank <= PERCENT_MAX,
        ensures
            0 <= spec_percentile_index(self.luma_vals@.len() as int, rank) < self.luma_vals@.len(),
    {
        let n = self.luma_vals@.len() as int;
        let m = PERCENT_MAX as int;
        lemma_mul_inequality(rank, m, n - 1);
        assert((n - 1) * rank == rank * (n - 1)) by (nonlinear_arith);
        assert((n - 1) * m == m * (n - 1)) by (nonlinear_arith);
        lemma_div_is_ordered((n - 1) * rank, (n - 1) * m, m);
        lemma_div_multiples_vanish(n - 1, m);
        assert((n - 1) * m == m * (n - 1)) by (nonlinear_arith);
        assert(0 <= (n - 1) * rank) by (nonlinear_arith)
            requires
                0 <= rank,
                1 <= n,
        ;
        lemma_div_is_ordered(0, (n - 1) * rank, m);
    }

    /// Returns the sample at the rank's order-statistic index: for `n`
    /// samples, element `floor((n - 1) * rank / 100%)` of the ascending
    /// store.  The result is always one of the stored samples.
    pub fn percentile(&self, rank: u64) -> (r: u32)
        requires
            self.wf(),
            rank <= PERCENT_MAX,
        ensures
            r == self.spec_percentile(rank as int),
            self.luma_vals@.contains(r),
    {
        proof {
            self.lemma_index_in_range(rank as int);
            assert(self.luma_vals.len() == self.luma_vals@.len());
        }
        let max_index = self.luma_vals.len() - 1;
        let wide: u128 = (max_index as u128) * (rank as u128);
        let target_index = (wide / (PERCENT_MAX as u128)) as usize;
        let r = self.luma_vals[target_index];
        proof {
            let n = self.luma_vals@.len() as int;
            assert(self.luma_vals@[spec_percentile_index(n, rank as int)] == r);
            assert(self.luma_vals@.contains(r)) by {
                assert(self.luma_vals@[spec_percentile_index(n, rank as int)] == r);
            }
        }
        r
    }

    /// Percentile queries are monotone in the rank: a higher rank never
    /// selects a smaller sample.
    pub proof fn lemma_percentile_monotone(self, rank_lo: int, rank_hi: int)
        requires
            self.wf(),
            0 <= rank_lo <= rank_hi <= PERCENT_MAX,
        ensures
            self.spec_percentile(rank_lo) <= self.spec_percentile(rank_hi),
    {
        let n = self.luma_vals@.len() as int;
        let m = PERCENT_MAX as int;
        self.lemma_index_in_range(rank_lo);
        self.lemma_index_in_range(rank_hi);
        lemma_mul_inequality(rank_lo, rank_hi, n - 1);
        assert((n - 1) * rank_lo == rank_lo * (n - 1)) by (nonlinear_arith);
        assert((n - 1) * rank_hi == rank_hi * (n - 1)) by (nonlinear_arith);
        lemma_div_is_ordered((n - 1) * rank_lo, (n - 1) * rank_hi, m);
    }
}

} // verus!
