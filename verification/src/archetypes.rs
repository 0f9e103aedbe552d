use vstd::prelude::*;

verus! {

/// Visual shape for an enemy type.
#[derive(Debug, Clone, Copy, PartialEq, Eq, Structural)]
pub enum EnemyShape {
    Circle,
    Triangle,
    Square,
}

/// Sum of the first `n` weights.
pub open spec fn sum_first(w: Seq<u32>, n: int) -> int
    decreases n,
{
    if n <= 0 {
        0
    } else {
        sum_first(w, n - 1) + w[n - 1]
    }
}

/// Sum of all weights.
pub open spec fn total_weight(w: Seq<u32>) -> int {
    sum_first(w, w.len() as int)
}

proof fn lemma_sum_first_mono(w: Seq<u32>, a: int, b: int)
    requires
        0 <= a <= b <= w.len(),
    ensures
        sum_first(w, a) <= sum_first(w, b),
    decreases b - a,
{
    if a < b {
        lemma_sum_first_mono(w, a, b - 1);
    }
}

proof fn lemma_sum_first_bound(w: Seq<u32>, n: int)
    requires
        0 <= n <= w.len(),
    ensures
        sum_first(w, n) <= n * (u32::MAX as int),
    decreases n,
{
    if n > 0 {
        lemma_sum_first_bound(w, n - 1);
        assert(n * (u32::MAX as int) == (n - 1) * (u32::MAX as int) + u32::MAX) by (nonlinear_arith);
    }
}

/// Sums the weights, as `total_weight`.
pub fn sum_weights(weights: &Vec<u32>) -> (total: u64)
    requires
        weights@.len() <= u32::MAX,
    ensures
        total == total_weight(weights@),
{
    let mut total: u64 = 0;
    let mut i: usize = 0;
    while i < weights.len()
        invariant
            weights@.len() <= u32::MAX,
            i <= weights@.len(),
            total == sum_first(weights@, i as int),
            total <= i * (u32::MAX as int),
        decreases weights.len() - i,
    {
        proof {
            assert((i + 1) * (u32::MAX as int) == i * (u32::MAX as int) + u32::MAX) by (nonlinear_arith);
            assert((i + 1) * (u32::MAX as int) <= (u32::MAX as int) * (u32::MAX as int)) by (nonlinear_arith)
                requires
                    i + 1 <= u32::MAX,
            ;
        }
        total = total + weights[i] as u64;
        i = i + 1;
    }
    total
}

/// Weighted selection for a given roll: the index whose slice of the cumulative weights
/// `[sum of earlier weights, that plus its own weight)` contains `roll`.
pub fn select_weighted(weights: &Vec<u32>, roll: u64) -> (i: usize)
    requires
        weights@.len() <= u32::MAX,
        roll < total_weight(weights@),
    ensures
        i < weights@.len(),
        sum_first(weights@, i as int) <= roll < sum_first(weights@, i as int) + weights@[i as int],
{
    let mut acc: u64 = 0;
    let mut i: usize = 0;
    while i < weights.len()
        invariant
            i <= weights@.len(),
            acc == sum_first(weights@, i as int),
            acc <= roll,
            roll < total_weight(weights@),
            weights@.len() <= u32::MAX,
        decreases weights.len() - i,
    {
        proof {
            lemma_sum_first_mono(weights@, i as int + 1, weights@.len() as int);
            lemma_sum_first_bound(weights@, weights@.len() as int);
            assert(weights@.len() * (u32::MAX as int) <= (u32::MAX as int) * (u32::MAX as int)) by (nonlinear_arith)
                requires
                    weights@.len() <= u32::MAX,
            ;
        }
        if roll < acc + weights[i] as u64 {
            return i;
        }
        acc = acc + weights[i] as u64;
        i = i + 1;
    }
    i
}

/// Weights are relative frequencies: every roll below the total falls in the slot of exactly
/// one entry, entry `i` owning the `weights[i]` rolls from `sum_first(weights, i)` on, so a
/// uniform roll picks each entry in proportion to its weight.
pub proof fn lemma_weighted_slots_partition(w: Seq<u32>, roll: int, i: int, j: int)
    requires
        0 <= i < w.len(),
        0 <= j < w.len(),
        sum_first(w, i) <= roll < sum_first(w, i) + w[i],
        sum_first(w, j) <= roll < sum_first(w, j) + w[j],
    ensures
        i == j,
{
    if i < j {
        lemma_sum_first_mono(w, i + 1, j);
    } else if j < i {
        lemma_sum_first_mono(w, j + 1, i);
    }
}

/// Every entry with a positive weight owns at least one roll below the total: the rolls from
/// `sum_first(weights, i)` up to `sum_first(weights, i) + weights[i]` all lie below it.
pub proof fn lemma_positive_weight_has_rolls(w: Seq<u32>, i: int)
    requires
        0 <= i < w.len(),
        w[i] > 0,
    ensures
        0 <= sum_first(w, i),
        sum_first(w, i) + w[i] <= total_weight(w),
{
    lemma_sum_first_mono(w, 0, i);
    lemma_sum_first_mono(w, i + 1, w.len() as int);
}

/// Draws an integer uniformly from `0..bound` using rand's `thread_rng().gen_range`, which
/// panics on an empty range; the result is random, only its range is promised.
#[verifier::external_body]
fn roll_below(bound: u64) -> (r: u64)
    requires
        bound > 0,
    ensures
        r < bound,
{
    rand::Rng::gen_range(&mut rand::thread_rng(), 0..bound)
}

/// Weighted-random pick of an index: `None` when all weights are zero (nothing to pick),
/// otherwise an index drawn with probability proportional to its weight, so never one whose
/// weight is zero.
pub fn pick_weighted(weights: &Vec<u32>) -> (r: Option<usize>)
    requires
        weights@.len() <= u32::MAX,
    ensures
        r is None <==> total_weight(weights@) == 0,
        r matches Some(i) ==> i < weights@.len() && weights@[i as int] > 0,
{
    let total = sum_weights(weights);
    if total == 0 {
        return None;
    }
    let roll = roll_below(total);
    Some(select_weighted(weights, roll))
}

} // verus!
