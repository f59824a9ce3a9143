//! Weighted choice of one index, driven by a uniform draw.
use vstd::prelude::*;

verus! {

/// Sum of the first `k` weights.
pub open spec fn weight_prefix(w: Seq<u64>, k: int) -> int
    decreases k,
{
    if k <= 0 {
        0
    } else {
        weight_prefix(w, k - 1) + w[k - 1] as int
    }
}

/// Sum of all weights.
pub open spec fn weight_total(w: Seq<u64>) -> int {
    weight_prefix(w, w.len() as int)
}

/// The weights' prefix sums grow with their length and stay within their count times `u64::MAX`.
pub proof fn lemma_prefix_monotone(w: Seq<u64>, j: int, k: int)
    requires
        0 <= j <= k <= w.len(),
    ensures
        0 <= weight_prefix(w, j) <= weight_prefix(w, k) <= k * 0xffff_ffff_ffff_ffff,
    decreases k,
{
    if k > 0 {
        if j < k {
            lemma_prefix_monotone(w, j, k - 1);
        } else {
            lemma_prefix_monotone(w, j - 1, k - 1);
        }
    }
}

/// Weights that sum to zero are all zero.
pub proof fn lemma_zero_total(w: Seq<u64>)
    requires
        weight_total(w) == 0,
    ensures
        forall|q: int| 0 <= q < w.len() ==> #[trigger] w[q] == 0,
{
    assert forall|q: int| 0 <= q < w.len() implies #[trigger] w[q] == 0 by {
        lemma_prefix_monotone(w, q + 1, w.len() as int);
        lemma_prefix_monotone(w, q, q + 1);
    }
}

/// The index `k` whose slice `[prefix(k), prefix(k + 1))` holds `r`.
pub open spec fn picked(w: Seq<u64>, r: int) -> int {
    choose|k: int| 0 <= k < w.len() && #[trigger] weight_prefix(w, k) <= r < weight_prefix(w, k + 1)
}

pub proof fn lemma_picked_unique(w: Seq<u64>, r: int, k: int)
    requires
        0 <= k < w.len(),
        weight_prefix(w, k) <= r < weight_prefix(w, k + 1),
    ensures
        picked(w, r) == k,
{
    let j = picked(w, r);
    assert(0 <= j < w.len() && weight_prefix(w, j) <= r < weight_prefix(w, j + 1));
    if j < k {
        lemma_prefix_monotone(w, j + 1, k);
    } else if k < j {
        lemma_prefix_monotone(w, k + 1, j);
    }
}

/// The index `k` whose slice `[prefix(k), prefix(k + 1))` of `[0, total)` holds `r`:
/// each index comes out for a share of the draws equal to its weight.
pub fn select_by_weight(weights: &Vec<u64>, r: u128) -> (k: usize)
    requires
        weights@.len() < 0x1_0000_0000_0000_0000,
        r < weight_total(weights@),
    ensures
        k < weights@.len(),
        weight_prefix(weights@, k as int) <= r < weight_prefix(weights@, k + 1),
{
    let mut acc: u128 = 0;
    let mut k: usize = 0;
    proof {
        lemma_prefix_monotone(weights@, 0, weights@.len() as int);
    }
    while k < weights.len()
        invariant
            weights@.len() < 0x1_0000_0000_0000_0000,
            r < weight_total(weights@),
            k <= weights@.len(),
            acc == weight_prefix(weights@, k as int),
            acc <= r,
        decreases weights@.len() - k,
    {
        proof {
            lemma_prefix_monotone(weights@, k + 1, weights@.len() as int);
            assert((k + 1) * 0xffff_ffff_ffff_ffff < 0x1_0000_0000_0000_0000 * 0x1_0000_0000_0000_0000)
                by (nonlinear_arith) requires k < 0x1_0000_0000_0000_0000;
        }
        let next = acc + weights[k] as u128;
        if r < next {
            return k;
        }
        acc = next;
        k = k + 1;
    }
    k
}

} // verus!
