use matching_polynomial::graph_matching;
use matching_polynomial::matching::calculate_matching_polynomial_static;
use matching_polynomial::matching_raw_memory::{
    self, calculate_matching_polynomial_raw, GraphProperties,
};
use matching_polynomial::traits::{get_deck, Graph};
use matching_polynomial::weighted_graph_matching::{get_weighted_deck, WeightedGraph};
use matching_polynomial::{calculate_matching_polynomial_pointer, BinaryGraph};

fn padded(head: &[u64]) -> [u64; 64] {
    let mut data = [0u64; 64];
    data[..head.len()].copy_from_slice(head);
    data
}

#[test]
fn new_graph_has_no_nodes() {
    let graph = BinaryGraph::new();
    assert_eq!(graph.data(), [0u64; 64]);
    assert_eq!(graph.graph_size(), 0);
    assert_eq!(graph.initial_graph_size(), 0);
    assert!(graph.edgeless());
    assert_eq!(graph.edgeless_node_count(), 0);
    assert_eq!(graph.edge_count(), 0);
    assert_eq!(graph.density(), (0, 0));
}

#[test]
fn from_counts_the_words_that_are_not_zero() {
    let graph = BinaryGraph::from(padded(&[0b11001, 0b1001, 0, 0b11, 0b1]));
    assert_eq!(graph.initial_graph_size(), 4);
    assert_eq!(graph.graph_size(), 4);
    let subset = BinaryGraph::from_graph_subset(padded(&[0b11001, 0b1001, 0, 0b11, 0b1]), 5);
    assert_eq!(subset.initial_graph_size(), 5);
    assert_eq!(subset.graph_size(), 4);
    assert_eq!(subset.data(), graph.data());
}

#[test]
fn graphs_compare_by_their_words() {
    let data = padded(&[0b11001, 0b1001, 0, 0b11, 0b1]);
    let a = BinaryGraph::from(data);
    let b = BinaryGraph::from_graph_subset(data, 5);
    let c = BinaryGraph::from(padded(&[0b11001, 0b1001, 0, 0b10, 0b1]));
    assert!(a == b);
    assert!(a != c);
    let x = graph_matching::Graph::from(data);
    let y = graph_matching::Graph::from(padded(&[0b11000, 0b1001, 0, 0b11, 0b1]));
    assert!(x == x);
    assert!(x != y);
}

#[test]
fn relevant_edge_is_the_last_edge_of_the_first_node_with_one() {
    let graph = BinaryGraph::from(padded(&[0b10000, 0b1101, 0b110, 0b11, 0b1]));
    assert!(!graph.edgeless());
    assert_eq!(graph.get_relevant_edge(), (1, 4, 5));
    let other = BinaryGraph::from(padded(&[0b11010, 0b1000, 0b100, 0b10, 0b1]));
    assert_eq!(other.get_relevant_edge(), (0, 3, 5));
}

#[test]
fn primes_drop_the_edge_and_its_two_ends() {
    let graph = BinaryGraph::from(padded(&[10, 5, 3, 1]));
    let (prime, prime_prime) = graph.get_graph_primes();
    assert_eq!(prime.data(), padded(&[8, 5, 3, 1]));
    assert_eq!(prime_prime.data(), padded(&[0, 5, 0, 1]));
    assert_eq!(prime.initial_graph_size(), 4);
    assert_eq!(prime_prime.graph_size(), 2);
}

#[test]
fn remove_edge_touches_one_word_only() {
    let mut graph = BinaryGraph::from(padded(&[0b1111, 0b111, 0b11, 0b1]));
    graph.remove_edge(0, 2, 4);
    assert_eq!(graph.data(), padded(&[0b1101, 0b111, 0b11, 0b1]));
    graph.remove_edge(1, 3, 4);
    assert_eq!(graph.data(), padded(&[0b1101, 0b110, 0b11, 0b1]));
}

#[test]
fn remove_node_clears_word_and_column() {
    let mut graph = BinaryGraph::from(padded(&[0b1111, 0b111, 0b11, 0b1]));
    graph.remove_node(2, 4);
    assert_eq!(graph.data(), padded(&[0b1101, 0b101, 0, 0b1]));
    assert_eq!(graph.graph_size(), 3);
    assert_eq!(graph.initial_graph_size(), 4);
}

#[test]
fn edgeless_graph_counts_its_nodes() {
    let graph = BinaryGraph::from(padded(&[0b10000, 0, 0b100, 0b10, 0]));
    assert!(graph.edgeless());
    assert_eq!(graph.edgeless_node_count(), 3);
    assert_eq!(graph.graph_size(), 3);
    let with_edge = BinaryGraph::from(padded(&[0b10000, 0, 0b110, 0b10, 0]));
    assert!(!with_edge.edgeless());
}

#[test]
fn density_is_edges_over_possible_edges() {
    let missing = BinaryGraph::from(padded(&[0b11001, 0b1001, 0, 0b11, 0b1]));
    assert_eq!(missing.density(), (4, 6));
    let single = BinaryGraph::from(padded(&[0b1]));
    assert_eq!(single.density(), (0, 0));
    let chain = BinaryGraph::from(padded(&[0b11000, 0b1100, 0b110, 0b11, 0b1]));
    assert_eq!(chain.density(), (4, 10));
}

#[test]
fn complement_twice_is_the_graph() {
    let data = padded(&[0b11001, 0b1001, 0, 0b11, 0b1]);
    let graph = BinaryGraph::from_graph_subset(data, 5);
    assert_eq!(graph.complement().complement().data(), data);
    let chain = padded(&[0b1100000, 0b110000, 0b11000, 0b1100, 0b110, 0b11, 0b1]);
    let graph = BinaryGraph::from(chain);
    assert_eq!(graph.complement().complement().data(), chain);
    assert_eq!(graph.complement().initial_graph_size(), 7);
}

#[test]
fn deck_removes_each_node_in_turn() {
    let data = padded(&[0b1111, 0b111, 0b11, 0b1]);
    let deck = get_deck(BinaryGraph::from(data));
    assert_eq!(deck.len(), 4);
    assert_eq!(deck[0].data(), padded(&[0, 0b111, 0b11, 0b1]));
    assert_eq!(deck[1].data(), padded(&[0b1011, 0, 0b11, 0b1]));
    assert_eq!(deck[2].data(), padded(&[0b1101, 0b101, 0, 0b1]));
    assert_eq!(deck[3].data(), padded(&[0b1110, 0b110, 0b10, 0]));

    let raw_deck = matching_raw_memory::get_deck(&data);
    assert_eq!(raw_deck.len(), 4);
    let struct_deck = graph_matching::get_deck(&graph_matching::Graph::from(data));
    assert_eq!(struct_deck.len(), 4);
    for i in 0..4 {
        assert_eq!(raw_deck[i], deck[i].data());
        assert_eq!(struct_deck[i].data(), deck[i].data());
    }

    let weighted = WeightedGraph::from(data, [7i64; 4096]);
    let weighted_deck = get_weighted_deck(&weighted);
    assert_eq!(weighted_deck.len(), 4);
    for i in 0..4 {
        assert_eq!(weighted_deck[i].graph.data(), deck[i].data());
        assert_eq!(weighted_deck[i].weights[100], 7);
    }
}

#[test]
fn raw_words_have_the_graph_operations() {
    let mut data = padded(&[10, 5, 3, 1]);
    assert!(!GraphProperties::edgeless(&data));
    assert_eq!(GraphProperties::graph_size(&data), 4);
    assert_eq!(GraphProperties::get_relevant_edge(&data), (0, 2, 4));
    let mut both = data;
    GraphProperties::remove_nodes(&mut both, 0, 2, 4);
    assert_eq!(both, padded(&[0, 5, 0, 1]));
    let mut one_by_one = data;
    GraphProperties::remove_node(&mut one_by_one, 0, 4);
    GraphProperties::remove_node(&mut one_by_one, 2, 4);
    assert_eq!(one_by_one, both);
    GraphProperties::remove_edge(&mut data, 0, 2, 4);
    assert_eq!(data, padded(&[8, 5, 3, 1]));
    GraphProperties::remove_edge(&mut data, 1, 3, 4);
    GraphProperties::remove_edge(&mut data, 2, 3, 4);
    assert!(GraphProperties::edgeless(&data));
    assert_eq!(GraphProperties::edgeless_node_count(&data), 4);
}

#[test]
fn graph_struct_has_the_graph_operations() {
    let data = padded(&[10, 5, 3, 1]);
    let empty = graph_matching::Graph::new();
    assert_eq!(empty.data(), [0u64; 64]);
    assert_eq!(empty.initial_graph_size(), 0);
    let graph = graph_matching::Graph::from(data);
    assert_eq!(graph.initial_graph_size(), 4);
    assert_eq!(graph.graph_size(), 4);
    assert!(!graph.edgeless());
    assert_eq!(graph.get_relevant_edge(), (0, 2, 4));
    let (prime, prime_prime) = graph.get_graph_primes();
    assert_eq!(prime.data(), padded(&[8, 5, 3, 1]));
    assert_eq!(prime_prime.data(), padded(&[0, 5, 0, 1]));
    let mut edgeless = prime_prime;
    edgeless.remove_edge(1, 3, 4);
    assert!(edgeless.edgeless());
    assert_eq!(edgeless.edgeless_node_count(), 2);
    let mut smaller = graph;
    smaller.remove_node(3, 4);
    assert_eq!(smaller.data(), padded(&[10, 4, 2, 0]));
}

#[test]
fn all_plain_engines_agree() {
    let graphs = [
        padded(&[0b1111, 0b111, 0b11, 0b1]),
        padded(&[0b11001, 0b1001, 0b110, 0b11, 0b1]),
        padded(&[0b11001, 0b1001, 0, 0b11, 0b1]),
        padded(&[0b110000, 0b11000, 0b1100, 0b110, 0b11, 0b1]),
        padded(&[0b100, 0b10, 0b1]),
        padded(&[]),
    ];
    for data in graphs {
        let expected = calculate_matching_polynomial_pointer(BinaryGraph::from(data));
        assert_eq!(calculate_matching_polynomial_raw(data), expected);
        assert_eq!(
            graph_matching::calculate_matching_polynomial_pointer(BinaryGraph::from(data)),
            expected
        );
        assert_eq!(
            calculate_matching_polynomial_static(graph_matching::Graph::from(data)),
            expected
        );
    }
}

#[test]
fn empty_graph_has_the_polynomial_one() {
    let poly = calculate_matching_polynomial_pointer(BinaryGraph::new());
    assert_eq!(poly[0], 1);
    assert!(poly[1..].iter().all(|c| *c == 0));
}

#[test]
fn full_width_graph_uses_the_last_coefficient() {
    let mut data = [0u64; 64];
    for i in 0..64 {
        data[i] = 1u64 << (63 - i);
    }
    let graph = BinaryGraph::from(data);
    assert!(graph.edgeless());
    let poly = calculate_matching_polynomial_pointer(graph);
    assert_eq!(poly[64], 1);
    assert!(poly[..64].iter().all(|c| *c == 0));
}

#[test]
fn well_formed_encodings_are_recognised() {
    let full = BinaryGraph::from(padded(&[0b1111, 0b111, 0b11, 0b1]));
    assert!(full.is_well_formed());
    let missing = padded(&[0b11001, 0b1001, 0, 0b11, 0b1]);
    assert!(BinaryGraph::from_graph_subset(missing, 5).is_well_formed());
    // the number of present nodes is not the width of this encoding
    assert!(!BinaryGraph::from(missing).is_well_formed());
    // an edge to a node that is not present
    assert!(!BinaryGraph::from_graph_subset(padded(&[0b11, 0]), 2).is_well_formed());
    // a presence bit in the wrong place
    assert!(!BinaryGraph::from_graph_subset(padded(&[0b100, 0b1]), 2).is_well_formed());
    assert!(!BinaryGraph::from_graph_subset(padded(&[0b01, 0b1]), 2).is_well_formed());
    // a node beyond the width
    assert!(!BinaryGraph::from_graph_subset(padded(&[0b10, 0b1, 0b1]), 2).is_well_formed());
    assert!(BinaryGraph::new().is_well_formed());
    assert!(!BinaryGraph::from_graph_subset([0u64; 64], 65).is_well_formed());
    let mut widest = [0u64; 64];
    for i in 0..64 {
        widest[i] = u64::MAX >> i;
    }
    assert!(BinaryGraph::from(widest).is_well_formed());
}
