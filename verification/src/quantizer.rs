//! Leaky quantization of continuous distributions onto an integer domain.
//!
//! A [`LeakyQuantizer`] fixes an inclusive symbol domain `[lo, hi]` with
//! `D = hi - lo + 1` points and reserves `free_weight = 2^32 - D` units of
//! probability mass for the shape of the continuous distribution; the other
//! `D` units guarantee one unit of leakage per symbol. A continuous
//! cumulative distribution function `F` enters as its *rounded scaled
//! cumulative*: the table whose `k`-th entry is `F` evaluated halfway between
//! the `k`-th and the `(k+1)`-th domain point, scaled by `free_weight` and
//! rounded to an integer. Any nondecreasing table bounded by `free_weight`
//! is admissible, so rounding details of the float layer do not matter here.
//!
//! The quantized model's cumulative is then
//! `cum(i) = table[i - 1] + i` for `0 < i < D`, pinned to `0` at `i = 0` and
//! to `2^32` at `i = D`. The `+ i` summand makes the cumulative strictly
//! increasing (leakiness); the pinned endpoints make it exactly normalized.

use vstd::prelude::*;

use crate::distributions::DiscreteDistribution;
use crate::distributions::fixed_point_total;
use crate::distributions::wrapping_sub_u32;

verus! {

/// Builder for [`QuantizedDistribution`]s over a fixed integer domain.
pub struct LeakyQuantizer {
    min_symbol: i32,
    max_symbol: i32,
    free_weight: u32,
}

impl LeakyQuantizer {
    /// Smallest symbol of the domain.
    pub closed spec fn min_spec(&self) -> int {
        self.min_symbol as int
    }

    /// Largest symbol of the domain.
    pub closed spec fn max_spec(&self) -> int {
        self.max_symbol as int
    }

    /// Mass left to distribute according to the continuous distribution.
    pub closed spec fn free_weight_spec(&self) -> int {
        self.free_weight as int
    }

    /// The domain is nonempty and the free weight complements its size.
    pub closed spec fn wf(&self) -> bool {
        &&& self.min_symbol <= self.max_symbol
        &&& self.free_weight == fixed_point_total() - (self.max_symbol - self.min_symbol + 1)
    }

    /// Constructs a quantizer defined on the inclusive domain
    /// `[min_symbol, max_symbol]`.
    pub fn new(min_symbol: i32, max_symbol: i32) -> (r: Self)
        requires
            min_symbol <= max_symbol,
        ensures
            r.wf(),
            r.min_spec() == min_symbol,
            r.max_spec() == max_symbol,
            r.free_weight_spec() == fixed_point_total() - (max_symbol - min_symbol + 1),
    {
        let span: u64 = (max_symbol as i64 - min_symbol as i64) as u64;
        let free_weight: u32 = (u32::MAX as u64 - span) as u32;
        LeakyQuantizer { min_symbol, max_symbol, free_weight }
    }

    /// Quantizes a continuous distribution, given as its rounded scaled
    /// cumulative table over the half-open midpoints of the domain. Entry
    /// `k` (for `0 <= k < D - 1`) is the scaled cumulative between domain
    /// point `k` and `k + 1`; the table must be nondecreasing and bounded by
    /// the free weight, which holds for every cumulative distribution
    /// function by monotonicity. The same quantizer can be reused for
    /// arbitrarily many distributions.
    pub fn quantize(&self, rounded_cdf: Vec<u32>) -> (r: QuantizedDistribution)
        requires
            self.wf(),
            rounded_cdf@.len() == self.max_spec() - self.min_spec(),
            forall|k: int|
                0 <= k < rounded_cdf@.len() ==> #[trigger] rounded_cdf@[k]
                    <= self.free_weight_spec(),
            forall|k1: int, k2: int|
                0 <= k1 <= k2 < rounded_cdf@.len() ==> rounded_cdf@[k1] <= rounded_cdf@[k2],
        ensures
            r.wf(),
            r.min_sym() == self.min_spec(),
            r.num_syms() == self.max_spec() - self.min_spec() + 1,
            r@ == rounded_cdf@,
            forall|i: int|
                0 < i < r.num_syms() ==> #[trigger] r.cum(i) == rounded_cdf@[i - 1] + i,
    {
        QuantizedDistribution {
            min_symbol: self.min_symbol,
            max_symbol: self.max_symbol,
            free_weight: self.free_weight,
            rounded_cdf,
        }
    }
}

/// A continuous distribution quantized onto an integer domain, exposing the
/// [`DiscreteDistribution`] contract. Created by [`LeakyQuantizer::quantize`].
pub struct QuantizedDistribution {
    min_symbol: i32,
    max_symbol: i32,
    free_weight: u32,
    rounded_cdf: Vec<u32>,
}

impl View for QuantizedDistribution {
    type V = Seq<u32>;

    closed spec fn view(&self) -> Seq<u32> {
        self.rounded_cdf@
    }
}

impl QuantizedDistribution {
    /// Left cumulative weight of offset `i`, as a stored 32-bit value;
    /// valid for `1 <= i <= table length` (that is, `0 < i < D`).
    fn cum_at(&self, i: usize) -> (r: u32)
        requires
            self.wf(),
            1 <= i <= self@.len(),
        ensures
            r == self.cum(i as int),
    {
        self.rounded_cdf[i - 1] + (i as u32)
    }
}

impl DiscreteDistribution for QuantizedDistribution {
    closed spec fn wf(&self) -> bool {
        &&& self.min_symbol <= self.max_symbol
        &&& self.free_weight == fixed_point_total() - (self.max_symbol - self.min_symbol + 1)
        &&& self.rounded_cdf@.len() == self.max_symbol - self.min_symbol
        &&& forall|k: int|
            0 <= k < self.rounded_cdf@.len() ==> #[trigger] self.rounded_cdf@[k]
                <= self.free_weight
        &&& forall|k1: int, k2: int|
            0 <= k1 <= k2 < self.rounded_cdf@.len() ==> self.rounded_cdf@[k1]
                <= self.rounded_cdf@[k2]
    }

    closed spec fn min_sym(&self) -> int {
        self.min_symbol as int
    }

    closed spec fn num_syms(&self) -> int {
        self.max_symbol - self.min_symbol + 1
    }

    closed spec fn cum(&self, i: int) -> int {
        if i <= 0 {
            0
        } else if i >= self.num_syms() {
            fixed_point_total()
        } else {
            self.rounded_cdf@[i - 1] + i
        }
    }

    proof fn lemma_wf(&self) {
        let d = self.num_syms();
        assert forall|i: int| 0 <= i < d implies #[trigger] self.cum(i) < self.cum(i + 1) by {
            if i == 0 {
                if d > 1 {
                    assert(self.cum(1) == self.rounded_cdf@[0] + 1);
                }
            } else if i + 1 == d {
                assert(self.cum(i) == self.rounded_cdf@[i - 1] + i);
                assert(self.rounded_cdf@[i - 1] <= self.free_weight);
            } else {
                assert(self.rounded_cdf@[i - 1] <= self.rounded_cdf@[i]);
            }
        }
    }

    fn left_cumulative_and_probability(&self, symbol: i32) -> (r: Result<(u32, u32), ()>) {
        if symbol < self.min_symbol || symbol > self.max_symbol {
            return Err(());
        }
        let idx = (symbol as i64 - self.min_symbol as i64) as usize;
        proof {
            self.lemma_wf();
        }
        let left: u32 = if idx == 0 {
            0
        } else {
            self.cum_at(idx)
        };
        let right: u32 = if symbol == self.max_symbol {
            0
        } else {
            self.cum_at(idx + 1)
        };
        Ok((left, wrapping_sub_u32(right, left)))
    }

    fn quantile_function(&self, quantile: u32) -> (r: (i32, u32, u32)) {
        proof {
            self.lemma_wf();
        }
        let last = self.rounded_cdf.len();
        let mut left: usize = 0;
        let mut right: usize = last;
        while left < right
            invariant
                self.wf(),
                0 <= left <= right <= self@.len(),
                self.cum(left as int) <= quantile,
                quantile < self.cum(right + 1),
            decreases right - left,
        {
            let mid = left + 1 + (right - left - 1) / 2;
            if self.cum_at(mid) <= quantile {
                left = mid;
            } else {
                right = mid - 1;
            }
        }
        let symbol = (self.min_symbol as i64 + left as i64) as i32;
        let cum_left: u32 = if left == 0 {
            0
        } else {
            self.cum_at(left)
        };
        let cum_right: u32 = if left == last {
            0
        } else {
            self.cum_at(left + 1)
        };
        (symbol, cum_left, wrapping_sub_u32(cum_right, cum_left))
    }
}

} // verus!
