//! The common contract of discrete probability models.
//!
//! A model assigns to every symbol of an integer domain a positive
//! fixed-point probability weight. The weights are described through the
//! mathematical cumulative function `cum`: `cum(i)` is the total weight of
//! the first `i` symbols, `cum(0) == 0`, and the cumulative over the whole
//! domain is exactly `2^32`. Stored 32-bit cumulatives are these values
//! reduced modulo `2^32`, so the final boundary wraps to `0`.

use vstd::prelude::*;

verus! {

/// The fixed-point total `2^32`: the weight that represents probability one.
pub open spec fn fixed_point_total() -> int {
    0x1_0000_0000
}

/// A discrete probability distribution over the symbols
/// `min_sym() .. min_sym() + num_syms()`, with cumulative weights `cum`.
pub trait DiscreteDistribution: Sized {
    /// Well-formedness of the model's internal tables.
    spec fn wf(&self) -> bool;

    /// Smallest symbol of the domain.
    spec fn min_sym(&self) -> int;

    /// Number of symbols in the domain.
    spec fn num_syms(&self) -> int;

    /// Mathematical left-sided cumulative weight of the `i`-th symbol,
    /// meaningful for `0 <= i <= num_syms()`.
    spec fn cum(&self, i: int) -> int;

    /// Every well-formed model has a strictly increasing cumulative that
    /// starts at `0` and ends exactly at the fixed-point total, over a
    /// nonempty domain that fits in `i32`.
    proof fn lemma_wf(&self)
        requires
            self.wf(),
        ensures
            1 <= self.num_syms(),
            i32::MIN <= self.min_sym(),
            self.min_sym() + self.num_syms() - 1 <= i32::MAX,
            self.cum(0) == 0,
            self.cum(self.num_syms()) == fixed_point_total(),
            forall|i: int|
                0 <= i < self.num_syms() ==> #[trigger] self.cum(i) < self.cum(i + 1),
    ;

    /// Returns `Ok((left_sided_cumulative, probability))` of the bin for the
    /// provided `symbol`, or `Err(())` exactly when the symbol lies outside
    /// the domain. Both components are reduced modulo `2^32`.
    fn left_cumulative_and_probability(&self, symbol: i32) -> (r: Result<(u32, u32), ()>)
        requires
            self.wf(),
        ensures
            ({
                let i = symbol - self.min_sym();
                &&& ((0 <= i < self.num_syms()) <==> r is Ok)
                &&& (r matches Ok(p) ==> p.0 == self.cum(i) && p.1 == (self.cum(i + 1)
                    - self.cum(i)) % fixed_point_total())
            }),
    ;

    /// Returns `(symbol, left_sided_cumulative, probability)` of the unique
    /// bin that satisfies `cum(i) <= quantile < cum(i + 1)`.
    fn quantile_function(&self, quantile: u32) -> (r: (i32, u32, u32))
        requires
            self.wf(),
        ensures
            ({
                let i = r.0 - self.min_sym();
                &&& 0 <= i < self.num_syms()
                &&& self.cum(i) <= quantile < self.cum(i + 1)
                &&& r.1 == self.cum(i)
                &&& r.2 == (self.cum(i + 1) - self.cum(i)) % fixed_point_total()
            }),
    ;
}

/// The cumulative is nondecreasing between any two positions.
pub proof fn lemma_cum_nondecreasing<T: DiscreteDistribution>(d: &T, i: int, j: int)
    requires
        d.wf(),
        0 <= i <= j <= d.num_syms(),
    ensures
        d.cum(i) <= d.cum(j),
    decreases j - i,
{
    d.lemma_wf();
    if i < j {
        lemma_cum_nondecreasing(d, i, j - 1);
        assert(d.cum(j - 1) < d.cum(j));
    }
}

/// Leakiness law: the cumulative is strictly increasing between any two
/// distinct positions, so every symbol of the domain receives at least one
/// unit of probability weight.
pub proof fn lemma_cum_strictly_increasing<T: DiscreteDistribution>(d: &T, i: int, j: int)
    requires
        d.wf(),
        0 <= i < j <= d.num_syms(),
    ensures
        d.cum(i) < d.cum(j),
{
    d.lemma_wf();
    lemma_cum_nondecreasing(d, i, j - 1);
    assert(d.cum(j - 1) < d.cum(j));
}

/// Inversion law: for every symbol of the domain, each quantile inside the
/// symbol's bin `[cum(i), cum(i + 1))` identifies that bin and no other, and
/// the bin is nonempty. Together with the contract of `quantile_function`
/// this says that looking up any such quantile — the left boundary,
/// the last quantile of the bin, or any point between — returns exactly
/// `(symbol, left_sided_cumulative, probability)` of the forward lookup.
pub proof fn lemma_quantile_round_trip<T: DiscreteDistribution>(d: &T, i: int, q: int)
    requires
        d.wf(),
        0 <= i < d.num_syms(),
        d.cum(i) <= q < d.cum(i + 1),
    ensures
        d.cum(i + 1) - d.cum(i) >= 1,
        forall|j: int|
            0 <= j < d.num_syms() && #[trigger] d.cum(j) <= q < d.cum(j + 1) ==> j == i,
{
    d.lemma_wf();
    assert forall|j: int|
        0 <= j < d.num_syms() && #[trigger] d.cum(j) <= q < d.cum(j + 1) implies j == i by {
        if j < i {
            lemma_cum_nondecreasing(d, j + 1, i);
        }
        if i < j {
            lemma_cum_nondecreasing(d, i + 1, j);
        }
    }
}

/// Total weight of the first `i` symbols, summed bin by bin.
pub open spec fn mass_sum<T: DiscreteDistribution>(d: &T, i: int) -> int
    decreases i,
{
    if i <= 0 {
        0
    } else {
        mass_sum(d, i - 1) + (d.cum(i) - d.cum(i - 1))
    }
}

proof fn lemma_mass_sum_telescopes<T: DiscreteDistribution>(d: &T, i: int)
    requires
        d.wf(),
        0 <= i <= d.num_syms(),
    ensures
        mass_sum(d, i) == d.cum(i),
    decreases i,
{
    d.lemma_wf();
    if i > 0 {
        lemma_mass_sum_telescopes(d, i - 1);
    }
}

/// Normalization law: the probabilities of all symbols in the domain sum to
/// exactly the fixed-point total `2^32`.
pub proof fn lemma_total_mass<T: DiscreteDistribution>(d: &T)
    requires
        d.wf(),
    ensures
        mass_sum(d, d.num_syms()) == fixed_point_total(),
{
    d.lemma_wf();
    lemma_mass_sum_telescopes(d, d.num_syms());
}

/// Wrapping difference of two stored 32-bit cumulatives: the mathematical
/// difference reduced modulo the fixed-point total.
pub fn wrapping_sub_u32(a: u32, b: u32) -> (r: u32)
    ensures
        r == (a - b) % fixed_point_total(),
{
    if a >= b {
        a - b
    } else {
        proof {
            assert((a - b) % 0x1_0000_0000 == a - b + 0x1_0000_0000);
        }
        (0x1_0000_0000u64 + a as u64 - b as u64) as u32
    }
}

/// Monotonicity law of the quantile lookup: a larger quantile never maps to
/// an earlier symbol.
pub proof fn lemma_quantile_monotone<T: DiscreteDistribution>(
    d: &T,
    q1: int,
    q2: int,
    i1: int,
    i2: int,
)
    requires
        d.wf(),
        q1 <= q2,
        0 <= i1 < d.num_syms(),
        0 <= i2 < d.num_syms(),
        d.cum(i1) <= q1 < d.cum(i1 + 1),
        d.cum(i2) <= q2 < d.cum(i2 + 1),
    ensures
        i1 <= i2,
{
    d.lemma_wf();
    if i2 < i1 {
        lemma_cum_nondecreasing(d, i2 + 1, i1);
        assert(q2 < d.cum(i2 + 1) <= d.cum(i1) <= q1);
    }
}

} // verus!
