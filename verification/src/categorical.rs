//! Categorical distributions over a contiguous integer domain.
//!
//! A [`Categorical`] stores the cumulative table `cdf` of its probability
//! weights: `cdf[0] == 0`, `cdf[i] - cdf[i - 1]` (wrapping) is the weight of
//! the `i`-th symbol, and the final entry wraps back to `0`, standing for
//! the full mass `2^32`. With all weights positive the mathematical
//! cumulative is strictly increasing, which is what the binary-search
//! quantile lookup relies on.

use vstd::prelude::*;

use crate::distributions::DiscreteDistribution;
use crate::distributions::fixed_point_total;
use crate::distributions::wrapping_sub_u32;
use crate::weights::WeightObjective;
use crate::weights::optimal_weights;
use crate::weights::prefix_weight_sum;
use crate::weights::weight_sum;
use crate::weights::lemma_prefix_weight_sum_step;
use crate::weights::lemma_prefix_weight_sum_all;
use crate::weights::lemma_prefix_weight_sum_lower;
use crate::weights::lemma_prefix_weight_sum_upper;

verus! {

/// A discrete distribution given by an explicit table of probability
/// weights, defined on the symbols `min_symbol .. min_symbol + n`.
pub struct Categorical {
    cdf: Vec<u32>,
    min_symbol: i32,
}

impl View for Categorical {
    type V = Seq<u32>;

    closed spec fn view(&self) -> Seq<u32> {
        self.cdf@
    }
}

impl Categorical {
    /// Builds the distribution from pre-scaled weights: one 32-bit weight
    /// per symbol, summing to exactly `2^32`, every weight positive. A
    /// single-symbol distribution instead carries the lone weight `0`, the
    /// wrap-around sentinel for the full mass.
    pub fn new(probabilities: &Vec<u32>, min_symbol: i32) -> (r: Self)
        requires
            probabilities@.len() >= 1,
            probabilities@.len() == 1 ==> probabilities@[0] == 0,
            probabilities@.len() >= 2 ==> forall|k: int|
                0 <= k < probabilities@.len() ==> #[trigger] probabilities@[k] >= 1,
            probabilities@.len() >= 2 ==> weight_sum(probabilities@) == fixed_point_total(),
            min_symbol + probabilities@.len() - 1 <= i32::MAX,
        ensures
            r.wf(),
            r.min_sym() == min_symbol,
            r.num_syms() == probabilities@.len(),
            forall|i: int|
                0 <= i < probabilities@.len() ==> #[trigger] r.cum(i) == prefix_weight_sum(
                    probabilities@,
                    i,
                ),
    {
        let n = probabilities.len();
        let mut cdf: Vec<u32> = Vec::new();
        cdf.push(0u32);
        let mut accum: u32 = 0;
        proof {
            assert(probabilities@.subrange(0, 0) =~= Seq::<u32>::empty());
        }
        let mut i: usize = 0;
        while i < n
            invariant
                n == probabilities@.len() >= 1,
                n == 1 ==> probabilities@[0] == 0,
                n >= 2 ==> forall|k: int|
                    0 <= k < probabilities@.len() ==> #[trigger] probabilities@[k] >= 1,
                n >= 2 ==> weight_sum(probabilities@) == fixed_point_total(),
                0 <= i <= n,
                cdf@.len() == i + 1,
                accum == cdf@[i as int],
                forall|j: int|
                    0 <= j <= i ==> #[trigger] cdf@[j] == prefix_weight_sum(probabilities@, j)
                        % fixed_point_total(),
                forall|j: int|
                    0 <= j <= i && j < n ==> #[trigger] cdf@[j] == prefix_weight_sum(
                        probabilities@,
                        j,
                    ),
            decreases n - i,
        {
            proof {
                lemma_prefix_weight_sum_step(probabilities@, i as int);
                if n >= 2 {
                    lemma_prefix_weight_sum_lower(probabilities@, i as int);
                    lemma_prefix_weight_sum_upper(probabilities@, i + 1);
                    lemma_prefix_weight_sum_all(probabilities@);
                }
            }
            let p = probabilities[i];
            accum = ((accum as u64 + p as u64) % 0x1_0000_0000u64) as u32;
            cdf.push(accum);
            i = i + 1;
        }
        proof {
            lemma_prefix_weight_sum_all(probabilities@);
            if n >= 2 {
                assert forall|i: int| 0 <= i < n implies #[trigger] cum_of(cdf@, i) < cum_of(
                    cdf@,
                    i + 1,
                ) by {
                    lemma_prefix_weight_sum_step(probabilities@, i);
                    lemma_prefix_weight_sum_lower(probabilities@, i);
                    lemma_prefix_weight_sum_upper(probabilities@, i + 1);
                }
            }
        }
        Categorical { cdf, min_symbol }
    }

    /// Number of symbols in the domain.
    pub fn num_symbols(&self) -> (r: usize)
        requires
            self.wf(),
        ensures
            r == self.num_syms(),
    {
        self.cdf.len() - 1
    }

    /// Smallest symbol of the domain.
    pub fn min_supported_symbol(&self) -> (r: i32)
        ensures
            r == self.min_sym(),
    {
        self.min_symbol
    }

    /// Builds the categorical distribution whose fixed-point weights best
    /// approximate a probability mass function over `num_symbols` symbols,
    /// as ranked by the given cross-entropy objective; see
    /// [`optimal_weights`]. The domain starts at `min_supported_symbol`.
    pub fn from_continuous_probabilities<O: WeightObjective>(
        objective: &O,
        num_symbols: usize,
        min_supported_symbol: i32,
    ) -> (r: Self)
        requires
            1 <= num_symbols <= u32::MAX,
            min_supported_symbol + num_symbols - 1 <= i32::MAX,
        ensures
            r.wf(),
            r.min_sym() == min_supported_symbol,
            r.num_syms() == num_symbols,
    {
        let weights = optimal_weights(objective, num_symbols);
        Categorical::new(&weights, min_supported_symbol)
    }
}

/// The mathematical cumulative encoded by a stored table: the final wrapped
/// entry stands for the full mass.
pub open spec fn cum_of(cdf: Seq<u32>, i: int) -> int {
    if i <= 0 {
        0
    } else if i >= cdf.len() - 1 {
        fixed_point_total()
    } else {
        cdf[i] as int
    }
}

impl DiscreteDistribution for Categorical {
    closed spec fn wf(&self) -> bool {
        &&& self.cdf@.len() >= 2
        &&& self.cdf@[0] == 0
        &&& self.cdf@.last() == 0
        &&& self.min_symbol + self.cdf@.len() - 2 <= i32::MAX
        &&& forall|i: int|
            0 <= i < self.cdf@.len() - 1 ==> #[trigger] cum_of(self.cdf@, i) < cum_of(
                self.cdf@,
                i + 1,
            )
    }

    closed spec fn min_sym(&self) -> int {
        self.min_symbol as int
    }

    closed spec fn num_syms(&self) -> int {
        self.cdf@.len() - 1
    }

    closed spec fn cum(&self, i: int) -> int {
        cum_of(self.cdf@, i)
    }

    proof fn lemma_wf(&self) {
    }

    fn left_cumulative_and_probability(&self, symbol: i32) -> (r: Result<(u32, u32), ()>) {
        if symbol < self.min_symbol {
            return Err(());
        }
        let index = (symbol as i64 - self.min_symbol as i64) as usize;
        if index >= self.cdf.len() - 1 {
            return Err(());
        }
        let left = self.cdf[index];
        let right = self.cdf[index + 1];
        proof {
            assert(cum_of(self.cdf@, index as int) < cum_of(self.cdf@, index + 1));
            if index > 0 {
                assert(cum_of(self.cdf@, 0) < cum_of(self.cdf@, 1));
            }
        }
        Ok((left, wrapping_sub_u32(right, left)))
    }

    fn quantile_function(&self, quantile: u32) -> (r: (i32, u32, u32)) {
        let mut left: usize = 0;
        let mut right: usize = self.cdf.len() - 1;
        while left + 1 != right
            invariant
                self.wf(),
                0 <= left < right <= self@.len() - 1,
                cum_of(self@, left as int) <= quantile,
                quantile < cum_of(self@, right as int),
            decreases right - left,
        {
            let mid = left + (right - left) / 2;
            let pivot = self.cdf[mid];
            if pivot <= quantile {
                left = mid;
            } else {
                right = mid;
            }
        }
        let symbol = (self.min_symbol as i64 + left as i64) as i32;
        let cum = self.cdf[left];
        let next_cum = self.cdf[right];
        (symbol, cum, wrapping_sub_u32(next_cum, cum))
    }
}

} // verus!
