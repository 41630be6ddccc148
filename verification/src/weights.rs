//! Fixed-point approximation of probability mass functions.
//!
//! [`optimal_weights`] turns a probability mass function over `n` symbols
//! into `n` positive 32-bit weights that sum to exactly `2^32`. The input
//! enters through a [`WeightObjective`]: a caller-supplied oracle that ranks
//! symbols by the cross-entropy effect of moving one unit of weight. The
//! integer bookkeeping proved here — exact normalization, strictly positive
//! weights, unchanged length — holds for *every* oracle; the oracle only
//! steers which symbols receive the mass. A floating-point implementation of
//! the oracle (outside this crate's verified core) recovers the classical
//! cross-entropy-minimizing behaviour.

use vstd::prelude::*;

use crate::distributions::fixed_point_total;

verus! {

/// Total of a sequence of 32-bit weights, as a mathematical integer.
pub open spec fn weight_sum(s: Seq<u32>) -> int
    decreases s.len(),
{
    if s.len() == 0 {
        0
    } else {
        weight_sum(s.drop_last()) + s.last()
    }
}

/// Total of the first `i` weights.
pub open spec fn prefix_weight_sum(s: Seq<u32>, i: int) -> int {
    weight_sum(s.subrange(0, i))
}

pub proof fn lemma_weight_sum_push(s: Seq<u32>, v: u32)
    ensures
        weight_sum(s.push(v)) == weight_sum(s) + v,
{
    assert(s.push(v).drop_last() =~= s);
}

pub proof fn lemma_weight_sum_update(s: Seq<u32>, i: int, v: u32)
    requires
        0 <= i < s.len(),
    ensures
        weight_sum(s.update(i, v)) == weight_sum(s) - s[i] + v,
    decreases s.len(),
{
    if i == s.len() - 1 {
        assert(s.update(i, v).drop_last() =~= s.drop_last());
    } else {
        assert(s.update(i, v).drop_last() =~= s.drop_last().update(i, v));
        lemma_weight_sum_update(s.drop_last(), i, v);
    }
}

/// When every weight is at least one, each single weight leaves at least one
/// unit for every other position.
pub proof fn lemma_weight_sum_element(s: Seq<u32>, i: int)
    requires
        0 <= i < s.len(),
        forall|k: int| 0 <= k < s.len() ==> #[trigger] s[k] >= 1,
    ensures
        s[i] <= weight_sum(s) - (s.len() - 1),
    decreases s.len(),
{
    lemma_weight_sum_lower(s.drop_last());
    if i < s.len() - 1 {
        lemma_weight_sum_element(s.drop_last(), i);
    }
}

/// When every weight is at least one, two distinct weights leave at least one
/// unit for every other position.
pub proof fn lemma_weight_sum_two_elements(s: Seq<u32>, i: int, j: int)
    requires
        0 <= i < s.len(),
        0 <= j < s.len(),
        i != j,
        forall|k: int| 0 <= k < s.len() ==> #[trigger] s[k] >= 1,
    ensures
        s[i] + s[j] <= weight_sum(s) - (s.len() - 2),
    decreases s.len(),
{
    if i == s.len() - 1 {
        lemma_weight_sum_element(s.drop_last(), j);
    } else if j == s.len() - 1 {
        lemma_weight_sum_element(s.drop_last(), i);
    } else {
        lemma_weight_sum_two_elements(s.drop_last(), i, j);
    }
}

/// A sequence of weights that are all at least one sums to at least its
/// length.
pub proof fn lemma_weight_sum_lower(s: Seq<u32>)
    requires
        forall|k: int| 0 <= k < s.len() ==> #[trigger] s[k] >= 1,
    ensures
        weight_sum(s) >= s.len(),
    decreases s.len(),
{
    if s.len() > 0 {
        lemma_weight_sum_lower(s.drop_last());
    }
}

pub proof fn lemma_prefix_weight_sum_step(s: Seq<u32>, i: int)
    requires
        0 <= i < s.len(),
    ensures
        prefix_weight_sum(s, i + 1) == prefix_weight_sum(s, i) + s[i],
{
    assert(s.subrange(0, i + 1).drop_last() =~= s.subrange(0, i));
}

pub proof fn lemma_prefix_weight_sum_all(s: Seq<u32>)
    ensures
        prefix_weight_sum(s, s.len() as int) == weight_sum(s),
{
    assert(s.subrange(0, s.len() as int) =~= s);
}

/// Prefix sums of all-positive weights grow at least one per step.
pub proof fn lemma_prefix_weight_sum_lower(s: Seq<u32>, i: int)
    requires
        0 <= i <= s.len(),
        forall|k: int| 0 <= k < s.len() ==> #[trigger] s[k] >= 1,
    ensures
        prefix_weight_sum(s, i) >= i,
    decreases i,
{
    if i == 0 {
        assert(s.subrange(0, 0) =~= Seq::<u32>::empty());
    } else {
        lemma_prefix_weight_sum_lower(s, i - 1);
        lemma_prefix_weight_sum_step(s, i - 1);
    }
}

/// Prefix sums of all-positive weights stay at least one per remaining step
/// below the total.
pub proof fn lemma_prefix_weight_sum_upper(s: Seq<u32>, i: int)
    requires
        0 <= i <= s.len(),
        forall|k: int| 0 <= k < s.len() ==> #[trigger] s[k] >= 1,
    ensures
        prefix_weight_sum(s, i) <= weight_sum(s) - (s.len() - i),
    decreases s.len() - i,
{
    if i == s.len() {
        lemma_prefix_weight_sum_all(s);
    } else {
        lemma_prefix_weight_sum_upper(s, i + 1);
        lemma_prefix_weight_sum_step(s, i);
    }
}

/// Caller-supplied ranking of symbols by the cross-entropy effect of moving
/// one unit of fixed-point weight. For a probability mass function `pmf`,
/// the intended reading of a pair `(i, w)` is
/// `win(i, w) = pmf[i] * ln(1 + 1 / w)` (the cross-entropy decrease when
/// weight `w` of symbol `i` rises by one) and
/// `loss(i, w) = -pmf[i] * ln(1 - 1 / w)` (the increase when it falls by
/// one), with `loss` infinite at `w == 1` so that no symbol is ever drained
/// to zero. No behaviour of the oracle is assumed in proofs: the
/// normalization guarantees of [`optimal_weights`] hold for every
/// implementation.
pub trait WeightObjective {
    /// First-cut weight for symbol `index` beyond its guaranteed single
    /// unit: the floor of the symbol's probability share of the free weight.
    fn initial_alloc(&self, index: usize) -> u32;

    /// Whether `win(i, weight_i) < win(j, weight_j)`.
    fn win_lt(&self, i: usize, weight_i: u32, j: usize, weight_j: u32) -> bool;

    /// Whether `loss(i, weight_i) < loss(j, weight_j)`.
    fn loss_lt(&self, i: usize, weight_i: u32, j: usize, weight_j: u32) -> bool;

    /// Whether `win(i, weight_i) <= loss(j, weight_j)`: no strictly
    /// improving transfer from `j` to `i` exists.
    fn win_le_loss(&self, i: usize, weight_i: u32, j: usize, weight_j: u32) -> bool;
}

/// Whether the ranked symbol at position `j` wins strictly more than its
/// left neighbour, so that a stable descending ranking must move it left.
fn ranks_above_left_neighbour<O: WeightObjective>(
    objective: &O,
    weights: &Vec<u32>,
    order: &Vec<usize>,
    j: usize,
) -> (r: bool)
    requires
        1 <= j < order@.len(),
        forall|k: int| 0 <= k < order@.len() ==> #[trigger] order@[k] < weights@.len(),
{
    let a = order[j - 1];
    let b = order[j];
    objective.win_lt(a, weights[a], b, weights[b])
}

/// Stable insertion sort of symbol indices by descending win, queried from
/// the objective at the symbols' current weights. Any result is a
/// rearrangement of valid indices, which is all the weight bookkeeping
/// needs.
fn sorted_by_win_desc<O: WeightObjective>(
    objective: &O,
    weights: &Vec<u32>,
    order: Vec<usize>,
) -> (r: Vec<usize>)
    requires
        forall|k: int| 0 <= k < order@.len() ==> #[trigger] order@[k] < weights@.len(),
    ensures
        r@.len() == order@.len(),
        forall|k: int| 0 <= k < r@.len() ==> #[trigger] r@[k] < weights@.len(),
{
    let mut order = order;
    let len = order.len();
    let mut i: usize = 1;
    while i < len
        invariant
            order@.len() == len,
            forall|k: int| 0 <= k < order@.len() ==> #[trigger] order@[k] < weights@.len(),
        decreases len - i,
    {
        let mut j: usize = i;
        while j > 0 && ranks_above_left_neighbour(objective, weights, &order, j)
            invariant
                0 <= j <= i < len,
                order@.len() == len,
                forall|k: int| 0 <= k < order@.len() ==> #[trigger] order@[k] < weights@.len(),
            decreases j,
        {
            let a = order[j - 1];
            let b = order[j];
            order.set(j - 1, b);
            order.set(j, a);
            j = j - 1;
        }
        i = i + 1;
    }
    order
}

/// Finds the fixed-point weights that approximate a probability mass
/// function over `num_weights` symbols: every weight is positive, the
/// weights sum to exactly `2^32`, and mass is steered towards the symbols
/// the objective favours — first by share, then by repeatedly moving single
/// units from the cheapest seller to the most profitable buyer until the
/// objective reports no improvement.
///
/// A degenerate single-symbol input yields the weight `0`, the wrap-around
/// sentinel for full mass `2^32`.
pub fn optimal_weights<O: WeightObjective>(objective: &O, num_weights: usize) -> (r: Vec<u32>)
    requires
        1 <= num_weights <= u32::MAX,
    ensures
        r@.len() == num_weights,
        num_weights == 1 ==> r@[0] == 0,
        num_weights >= 2 ==> forall|k: int| 0 <= k < r@.len() ==> #[trigger] r@[k] >= 1,
        num_weights >= 2 ==> weight_sum(r@) == fixed_point_total(),
{
    let n = num_weights;
    if n == 1 {
        let mut r: Vec<u32> = Vec::new();
        r.push(0u32);
        return r;
    }

    // Seed every symbol with one unit; distribute shares of the free weight,
    // clamped so the running remainder can never be overdrawn.
    let free_weight: u32 = (0x1_0000_0000u64 - n as u64) as u32;
    let mut remaining: u32 = free_weight;
    let mut weights: Vec<u32> = Vec::new();
    let mut i: usize = 0;
    while i < n
        invariant
            2 <= n <= u32::MAX,
            free_weight == fixed_point_total() - n,
            remaining <= free_weight,
            weights@.len() == i <= n,
            forall|k: int| 0 <= k < weights@.len() ==> #[trigger] weights@[k] >= 1,
            weight_sum(weights@) == i + free_weight - remaining,
        decreases n - i,
    {
        let mut alloc = objective.initial_alloc(i);
        if alloc > remaining {
            alloc = remaining;
        }
        remaining = remaining - alloc;
        proof {
            lemma_weight_sum_push(weights@, (alloc + 1) as u32);
        }
        weights.push(alloc + 1);
        i = i + 1;
    }

    let mut order: Vec<usize> = Vec::new();
    let mut i: usize = 0;
    while i < n
        invariant
            order@.len() == i <= n,
            forall|k: int| 0 <= k < order@.len() ==> #[trigger] order@[k] < n,
        decreases n - i,
    {
        order.push(i);
        i = i + 1;
    }

    // Hand the remainder out in batches to the symbols with the highest
    // wins, re-ranking between batches.
    while remaining > 0
        invariant
            2 <= n <= u32::MAX,
            weights@.len() == n,
            order@.len() == n,
            forall|k: int| 0 <= k < order@.len() ==> #[trigger] order@[k] < n,
            forall|k: int| 0 <= k < weights@.len() ==> #[trigger] weights@[k] >= 1,
            weight_sum(weights@) == fixed_point_total() - remaining,
        decreases remaining,
    {
        order = sorted_by_win_desc(objective, &weights, order);
        let batch = if (remaining as usize) < n {
            remaining as usize
        } else {
            n
        };
        let ghost rem0 = remaining;
        let mut k: usize = 0;
        while k < batch
            invariant
                2 <= n <= u32::MAX,
                weights@.len() == n,
                order@.len() == n,
                forall|kk: int| 0 <= kk < order@.len() ==> #[trigger] order@[kk] < n,
                forall|kk: int| 0 <= kk < weights@.len() ==> #[trigger] weights@[kk] >= 1,
                k <= batch <= rem0,
                batch <= n,
                remaining == rem0 - k,
                weight_sum(weights@) == fixed_point_total() - remaining,
            decreases batch - k,
        {
            let idx = order[k];
            let w = weights[idx];
            proof {
                lemma_weight_sum_element(weights@, idx as int);
                lemma_weight_sum_update(weights@, idx as int, (w + 1) as u32);
            }
            weights.set(idx, w + 1);
            remaining = remaining - 1;
            k = k + 1;
        }
    }

    // Local improvement: move one unit at a time from the seller with the
    // smallest loss to the buyer with the largest win, until the objective
    // reports the optimum (or the transfer budget runs out, which a strictly
    // improving objective never exhausts).
    let mut fuel: u64 = 0x1_0000_0000u64;
    while fuel > 0
        invariant
            2 <= n <= u32::MAX,
            weights@.len() == n,
            order@.len() == n,
            forall|k: int| 0 <= k < order@.len() ==> #[trigger] order@[k] < n,
            forall|k: int| 0 <= k < weights@.len() ==> #[trigger] weights@[k] >= 1,
            weight_sum(weights@) == fixed_point_total(),
        ensures
            weights@.len() == n,
            forall|k: int| 0 <= k < weights@.len() ==> #[trigger] weights@[k] >= 1,
            weight_sum(weights@) == fixed_point_total(),
        decreases fuel,
    {
        fuel = fuel - 1;

        // Buyer: the last symbol, in ranked order, whose win is maximal.
        let mut buyer = order[0];
        let mut k: usize = 1;
        while k < n
            invariant
                buyer < n,
                n == order@.len(),
                n == weights@.len(),
                forall|kk: int| 0 <= kk < order@.len() ==> #[trigger] order@[kk] < n,
            decreases n - k,
        {
            let cand = order[k];
            if !objective.win_lt(cand, weights[cand], buyer, weights[buyer]) {
                buyer = cand;
            }
            k = k + 1;
        }

        // Seller: the first symbol, in ranked order, whose loss is minimal.
        let mut seller = order[0];
        let mut k: usize = 1;
        while k < n
            invariant
                seller < n,
                n == order@.len(),
                n == weights@.len(),
                forall|kk: int| 0 <= kk < order@.len() ==> #[trigger] order@[kk] < n,
            decreases n - k,
        {
            let cand = order[k];
            if objective.loss_lt(cand, weights[cand], seller, weights[seller]) {
                seller = cand;
            }
            k = k + 1;
        }

        if buyer == seller {
            // Only possible through rounding artifacts in the objective; no
            // further improvement can be expected.
            break;
        }
        if objective.win_le_loss(buyer, weights[buyer], seller, weights[seller]) {
            break;
        }
        let seller_weight = weights[seller];
        if seller_weight <= 1 {
            // An objective honouring the infinite loss at weight one never
            // reaches this; keep the positivity guarantee regardless.
            break;
        }
        let buyer_weight = weights[buyer];
        proof {
            lemma_weight_sum_two_elements(weights@, buyer as int, seller as int);
            lemma_weight_sum_update(weights@, seller as int, (seller_weight - 1) as u32);
            lemma_weight_sum_update(
                weights@.update(seller as int, (seller_weight - 1) as u32),
                buyer as int,
                (buyer_weight + 1) as u32,
            );
        }
        weights.set(seller, seller_weight - 1);
        weights.set(buyer, buyer_weight + 1);
    }

    weights
}

} // verus!
