use ans::categorical::Categorical;
use ans::distributions::DiscreteDistribution;
use ans::quantizer::LeakyQuantizer;
use ans::weights::optimal_weights;
use ans::weights::WeightObjective;

use statrs::distribution::ContinuousCDF;
use statrs::distribution::Normal;

/// The cross-entropy objective for a floating-point probability mass
/// function: wins and losses are the first-order cross-entropy changes of
/// moving one unit of weight.
struct Pmf {
    probs: Vec<f64>,
    scale: f64,
}

impl Pmf {
    fn new(probs: Vec<f64>) -> Self {
        let free_weight: f64 = 0u32.wrapping_sub(probs.len() as u32) as f64;
        let sum: f64 = probs.iter().cloned().sum();
        Pmf {
            scale: free_weight / sum,
            probs,
        }
    }

    fn win(&self, i: usize, weight: u32) -> f64 {
        self.probs[i] * (1.0 / weight as f64).ln_1p()
    }

    fn loss(&self, i: usize, weight: u32) -> f64 {
        if weight == 1 {
            f64::INFINITY
        } else {
            -self.probs[i] * (-1.0 / weight as f64).ln_1p()
        }
    }
}

impl WeightObjective for Pmf {
    fn initial_alloc(&self, index: usize) -> u32 {
        (self.probs[index] * self.scale) as u32
    }

    fn win_lt(&self, i: usize, weight_i: u32, j: usize, weight_j: u32) -> bool {
        self.win(i, weight_i) < self.win(j, weight_j)
    }

    fn loss_lt(&self, i: usize, weight_i: u32, j: usize, weight_j: u32) -> bool {
        self.loss(i, weight_i) < self.loss(j, weight_j)
    }

    fn win_le_loss(&self, i: usize, weight_i: u32, j: usize, weight_j: u32) -> bool {
        self.win(i, weight_i) <= self.loss(j, weight_j)
    }
}

/// Scaled cumulative table of a continuous distribution over the domain
/// `[min_symbol, max_symbol]`: entry `k` is the distribution's cumulative at
/// `min_symbol + 1 + k - 1/2`, scaled by the free weight and truncated. The
/// running maximum guards the monotonicity the quantizer requires against
/// any rounding wobble of the underlying error function.
fn rounded_cdf_table(
    distribution: &Normal,
    min_symbol: i32,
    max_symbol: i32,
) -> Vec<u32> {
    let domain_size: u32 = (max_symbol - min_symbol + 1) as u32;
    let free_weight: f64 = 0u32.wrapping_sub(domain_size) as f64;
    let mut table: Vec<u32> = Vec::new();
    let mut floor: u32 = 0;
    for k in 1..domain_size {
        let x: f64 = (min_symbol + k as i32) as f64 - 0.5;
        let scaled: u32 = (free_weight * distribution.cdf(x)) as u32;
        floor = floor.max(scaled);
        table.push(floor);
    }
    table
}

fn test_discrete_distribution(distribution: impl DiscreteDistribution, domain: std::ops::Range<i32>) {
    let mut sum: u64 = 0;

    for symbol in domain {
        let (left_cumulative, prob) = distribution
            .left_cumulative_and_probability(symbol)
            .unwrap();
        assert_eq!(left_cumulative as u64, sum);
        sum += prob as u64;

        let expected = (symbol, left_cumulative, prob);
        assert_eq!(distribution.quantile_function(left_cumulative), expected);
        assert_eq!(distribution.quantile_function((sum - 1) as u32), expected);
        assert_eq!(
            distribution.quantile_function(left_cumulative + prob / 2),
            expected
        );
    }

    assert_eq!(sum, 1 << 32);
}

#[test]
fn leaky_quantized_normal() {
    let quantizer = LeakyQuantizer::new(-127, 127);

    for &std_dev in &[0.0001, 0.1, 3.5, 123.45, 1234.56] {
        for &mean in &[-300.6, -100.2, -5.2, 0.0, 50.3, 180.2, 2000.0] {
            let continuous_distribution = Normal::new(mean, std_dev).unwrap();
            let table = rounded_cdf_table(&continuous_distribution, -127, 127);
            test_discrete_distribution(quantizer.quantize(table), -127..128);
        }
    }
}

/// `optimal_weights` reproduces the same distribution when fed with an
/// already quantized distribution.
#[test]
fn trivial_optimal_weights() {
    let hist = [
        56319u32, 134860032, 47755520, 60775168, 75699200, 92529920, 111023616, 130420736,
        150257408, 169970176, 188869632, 424260864, 229548800, 236082432, 238252287, 234666240,
        1, 1, 227725568, 216746240, 202127104, 185095936, 166533632, 146508800, 126643712,
        107187968, 88985600, 72576000, 57896448, 45617664, 34893056, 26408448, 19666688,
        14218240, 10050048, 7164928, 13892864,
    ];
    assert_eq!(hist.iter().map(|&x| x as u64).sum::<u64>(), 1 << 32);

    let probabilities = hist.iter().map(|&x| x as f64).collect::<Vec<_>>();
    let count = probabilities.len();
    let weights: Vec<u32> = optimal_weights(&Pmf::new(probabilities), count);

    assert_eq!(&weights[..], &hist[..]);
}

#[test]
fn nontrivial_optimal_weights() {
    let hist = [
        1u32, 186545, 237403, 295700, 361445, 433686, 509456, 586943, 663946, 737772, 1657269,
        896675, 922197, 930672, 916665, 0, 0, 0, 0, 0, 723031, 650522, 572300, 494702, 418703,
        347600, 1, 283500, 226158, 178194, 136301, 103158, 76823, 55540, 39258, 27988, 54269,
    ];
    assert_ne!(hist.iter().map(|&x| x as u64).sum::<u64>(), 1 << 32);

    let probabilities = hist.iter().map(|&x| x as f64).collect::<Vec<_>>();
    let count = probabilities.len();
    let weights: Vec<u32> = optimal_weights(&Pmf::new(probabilities), count);

    assert_eq!(weights.len(), hist.len());
    assert_eq!(weights.iter().map(|&x| x as u64).sum::<u64>(), 1 << 32);
    for &w in &weights {
        assert!(w > 0);
    }

    let mut weights_and_hist = weights
        .iter()
        .cloned()
        .zip(hist.iter().cloned())
        .collect::<Vec<_>>();

    // Check that sorting by weight is compatible with sorting by hist.
    weights_and_hist.sort();
    let mut last: u32 = 0;
    for (_, hist) in weights_and_hist {
        assert!(hist >= last);
        last = hist;
    }
}

#[test]
fn categorical() {
    let hist = [
        1u32, 186545, 237403, 295700, 361445, 433686, 509456, 586943, 663946, 737772, 1657269,
        896675, 922197, 930672, 916665, 0, 0, 0, 0, 0, 723031, 650522, 572300, 494702, 418703,
        347600, 1, 283500, 226158, 178194, 136301, 103158, 76823, 55540, 39258, 27988, 54269,
    ];
    let probabilities = hist.iter().map(|&x| x as f64).collect::<Vec<_>>();
    let count = probabilities.len();

    let distribution =
        Categorical::from_continuous_probabilities(&Pmf::new(probabilities), count, -127);
    test_discrete_distribution(distribution, -127..-90);
}

#[test]
fn categorical_from_explicit_weights() {
    let half: u32 = 1u32 << 31;
    let quarter: u32 = 1u32 << 30;
    let distribution = Categorical::new(&vec![half, quarter, quarter], 10);

    assert_eq!(distribution.num_symbols(), 3);
    assert_eq!(distribution.min_supported_symbol(), 10);
    assert_eq!(
        distribution.left_cumulative_and_probability(10),
        Ok((0, half))
    );
    assert_eq!(
        distribution.left_cumulative_and_probability(11),
        Ok((half, quarter))
    );
    assert_eq!(
        distribution.left_cumulative_and_probability(12),
        Ok((half + quarter, quarter))
    );
    assert_eq!(distribution.left_cumulative_and_probability(9), Err(()));
    assert_eq!(distribution.left_cumulative_and_probability(13), Err(()));

    assert_eq!(distribution.quantile_function(0), (10, 0, half));
    assert_eq!(distribution.quantile_function(half - 1), (10, 0, half));
    assert_eq!(distribution.quantile_function(half), (11, half, quarter));
    assert_eq!(
        distribution.quantile_function(u32::MAX),
        (12, half + quarter, quarter)
    );
}

#[test]
fn categorical_quantile_is_monotone() {
    let distribution = Categorical::new(&vec![3, 5, 1u32 << 30, (1u32 << 31) + (1u32 << 30) - 8], -2);
    let mut last_symbol = i32::MIN;
    for quantile in [0u32, 1, 2, 3, 4, 7, 8, 9, 1 << 29, 1 << 30, 1 << 31, u32::MAX] {
        let (symbol, cumulative, prob) = distribution.quantile_function(quantile);
        assert!(symbol >= last_symbol);
        assert!(cumulative as u64 <= quantile as u64);
        assert!((quantile as u64) < cumulative as u64 + prob as u64);
        last_symbol = symbol;
    }
}

#[test]
fn degenerate_single_symbol() {
    let distribution = Categorical::new(&vec![0u32], 5);
    assert_eq!(distribution.left_cumulative_and_probability(5), Ok((0, 0)));
    assert_eq!(distribution.left_cumulative_and_probability(4), Err(()));
    assert_eq!(distribution.left_cumulative_and_probability(6), Err(()));
    assert_eq!(distribution.quantile_function(0), (5, 0, 0));
    assert_eq!(distribution.quantile_function(u32::MAX), (5, 0, 0));

    let weights: Vec<u32> = optimal_weights(&Pmf::new(vec![1.0]), 1);
    assert_eq!(weights, vec![0]);
}

#[test]
fn quantizer_with_flat_table() {
    // A table that never rises: all mass that the continuous distribution
    // could claim sits past the right end, so every symbol keeps exactly the
    // one unit of leakage except the last, which absorbs the free weight.
    let quantizer = LeakyQuantizer::new(0, 3);
    let distribution = quantizer.quantize(vec![0, 0, 0]);
    assert_eq!(distribution.left_cumulative_and_probability(0), Ok((0, 1)));
    assert_eq!(distribution.left_cumulative_and_probability(1), Ok((1, 1)));
    assert_eq!(distribution.left_cumulative_and_probability(2), Ok((2, 1)));
    assert_eq!(
        distribution.left_cumulative_and_probability(3),
        Ok((3, 0u32.wrapping_sub(3)))
    );
    assert_eq!(distribution.left_cumulative_and_probability(4), Err(()));
    assert_eq!(distribution.quantile_function(2), (2, 2, 1));
    assert_eq!(distribution.quantile_function(3), (3, 3, 0u32.wrapping_sub(3)));
    assert_eq!(distribution.quantile_function(u32::MAX), (3, 3, 0u32.wrapping_sub(3)));
}
