use matching_polynomial::matching_raw_memory::calculate_matching_polynomial_raw;
use matching_polynomial::traits::Graph;
use matching_polynomial::weighted_graph_matching::{
    _calculate_weighted_matching_polynomial_binary, weighted_matching_polynomial_addresses,
    WeightedGraph,
};
use matching_polynomial::{
    calculate_matching_polynomial_adaptive, calculate_matching_polynomial_pointer, BinaryGraph,
};

/// A small generator of numbers that look random and repeat from run to run.
struct Sequence(u64);

impl Sequence {
    fn next(&mut self) -> u64 {
        self.0 = self.0.wrapping_mul(6364136223846793005).wrapping_add(1442695040888963407);
        self.0 >> 33
    }
}

/// A graph on the slots `0..width`: which nodes are present, and the edges
/// between present nodes, the smaller node first.
struct Sample {
    width: usize,
    present: Vec<bool>,
    edges: Vec<(usize, usize)>,
}

impl Sample {
    fn random(source: &mut Sequence, width: usize, keep_all: bool, density: u64) -> Sample {
        let present: Vec<bool> =
            (0..width).map(|_| keep_all || source.next() % 4 != 0).collect();
        let mut edges = Vec::new();
        for i in 0..width {
            for u in i + 1..width {
                if present[i] && present[u] && source.next() % 100 < density {
                    edges.push((i, u));
                }
            }
        }
        Sample { width, present, edges }
    }

    fn words(&self) -> [u64; 64] {
        let mut data = [0u64; 64];
        for i in 0..self.width {
            if self.present[i] {
                data[i] = 1u64 << (self.width - 1 - i);
            }
        }
        for (i, u) in self.edges.iter() {
            data[*i] |= 1u64 << (self.width - 1 - *u);
        }
        data
    }

    fn nodes(&self) -> usize {
        self.present.iter().filter(|p| **p).count()
    }

    /// For every number of unmatched nodes, the sum over the matchings that
    /// leave as many of the product of `weight` over their edges.
    fn matchings(&self, weight: &dyn Fn(usize, usize) -> i64) -> Vec<i64> {
        let mut totals = vec![0i64; 65];
        let mut used = vec![false; self.width];
        self.extend(0, 0, 1, &mut used, weight, &mut totals);
        totals
    }

    fn extend(
        &self,
        from: usize,
        size: usize,
        product: i64,
        used: &mut Vec<bool>,
        weight: &dyn Fn(usize, usize) -> i64,
        totals: &mut Vec<i64>,
    ) {
        totals[self.nodes() - 2 * size] += product;
        for index in from..self.edges.len() {
            let (i, u) = self.edges[index];
            if !used[i] && !used[u] {
                used[i] = true;
                used[u] = true;
                self.extend(index + 1, size + 1, product * weight(i, u), used, weight, totals);
                used[i] = false;
                used[u] = false;
            }
        }
    }
}

fn samples() -> Vec<Sample> {
    let mut source = Sequence(2024);
    let mut all = Vec::new();
    for round in 0..60 {
        let width = 1 + (round % 7);
        let density = [15, 40, 60, 90][round % 4];
        all.push(Sample::random(&mut source, width, round % 3 != 0, density));
    }
    all
}

#[test]
fn plain_engines_count_matchings() {
    for sample in samples() {
        let expected = sample.matchings(&|_, _| 1);
        let data = sample.words();
        let plain = calculate_matching_polynomial_pointer(BinaryGraph::from(data));
        let raw = calculate_matching_polynomial_raw(data);
        for k in 0..65 {
            assert_eq!(plain[k] as i64, expected[k]);
            assert_eq!(raw[k] as i64, expected[k]);
        }
    }
}

#[test]
fn adaptive_engine_counts_matchings_with_signs() {
    for sample in samples() {
        let expected = sample.matchings(&|_, _| 1);
        let graph = BinaryGraph::from_graph_subset(sample.words(), sample.width);
        assert!(graph.is_well_formed());
        let adaptive = calculate_matching_polynomial_adaptive(graph);
        for k in 0..65 {
            let sign = if k <= sample.width && ((sample.width - k) / 2) % 2 == 1 { -1 } else { 1 };
            assert_eq!(adaptive[k], sign * expected[k]);
        }
    }
}

#[test]
fn weighted_engine_sums_squared_weights() {
    let mut source = Sequence(7);
    for sample in samples() {
        let mut weights = [0i64; 4096];
        for w in weights.iter_mut().take(64) {
            *w = (source.next() % 7) as i64 - 3;
        }
        let graph = WeightedGraph::from(sample.words(), weights);
        let columns = graph.graph.initial_graph_size();
        let expected = sample.matchings(&|i, u| {
            let w = weights[i * columns + u];
            w * w
        });
        let poly = _calculate_weighted_matching_polynomial_binary(graph);
        for k in 0..65 {
            assert_eq!(poly.data().get(k).copied().unwrap_or(0), expected[k]);
        }
    }
}

#[test]
fn complement_joins_what_was_not_joined() {
    for sample in samples() {
        let graph = BinaryGraph::from_graph_subset(sample.words(), sample.width);
        let complement = graph.complement().data();
        for i in 0..sample.width {
            assert_eq!(complement[i] != 0, sample.present[i]);
            for u in i + 1..sample.width {
                let joined = complement[i] >> (sample.width - 1 - u) & 1 == 1;
                let was_joined = sample.edges.contains(&(i, u));
                assert_eq!(joined, sample.present[i] && sample.present[u] && !was_joined);
            }
        }
        assert_eq!(graph.complement().complement().data(), sample.words());
    }
}

#[test]
fn address_walk_with_unit_weights_counts_matchings() {
    for sample in samples() {
        if sample.nodes() == 0 || sample.nodes() != sample.width {
            continue;
        }
        let expected = sample.matchings(&|_, _| 1);
        let graph = BinaryGraph::from(sample.words());
        let walked = weighted_matching_polynomial_addresses(graph, &[1i64; 4096]);
        for k in 0..65 {
            assert_eq!(walked[k], expected[k]);
        }
    }
}
