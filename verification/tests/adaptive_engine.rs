use matching_polynomial::traits::Graph;
use matching_polynomial::{calculate_matching_polynomial_adaptive, BinaryGraph};

fn graph_words(head: &[u64]) -> [u64; 64] {
    let mut data = [0u64; 64];
    data[..head.len()].copy_from_slice(head);
    data
}

#[test]
fn matching_polynomial_adaptive() {
    let fc_data = graph_words(&[0b1111, 0b111, 0b11, 0b1]);
    let graph = BinaryGraph::from(fc_data);

    let matching_polynomial = calculate_matching_polynomial_adaptive(graph);
    println!("We got this far...");
    assert_eq!(matching_polynomial[..graph.graph_size() + 1], [3, 0, -6, 0, 1]);
    let fc_data = graph_words(&[0b11111, 0b1111, 0b111, 0b11, 0b1]);
    let graph = BinaryGraph::from(fc_data);

    let matching_polynomial = calculate_matching_polynomial_adaptive(graph);
    println!("We got this far...");
    assert_eq!(matching_polynomial[..graph.graph_size() + 1], [0, 15, 0, -10, 0, 1]);
}

#[test]
fn matching_polynomial_adaptive_2() {
    let standard_data = graph_words(&[0b11001, 0b1001, 0b110, 0b11, 0b1]);
    let graph = BinaryGraph::from(standard_data);

    let matching_polynomial = calculate_matching_polynomial_adaptive(graph);
    assert_eq!(matching_polynomial[..graph.graph_size() + 1], [0, 4, 0, -5, 0, 1]);
}

#[test]
fn matching_polynomial_adaptive_3() {
    let standard_data_without_missing = graph_words(&[0b1101, 0b101, 0b11, 0b1]);
    let graph = BinaryGraph::from(standard_data_without_missing);

    let matching_polynomial = calculate_matching_polynomial_adaptive(graph);
    println!("About to test the standard data without missing");
    assert_eq!(matching_polynomial[..graph.graph_size() + 1], [1, 0, -4, 0, 1]);
}

#[test]
fn matching_polynomial_adaptive_4() {
    let standard_data_missing = graph_words(&[0b11001, 0b1001, 0, 0b11, 0b1]);
    let graph = BinaryGraph::from_graph_subset(standard_data_missing, 5);
    println!("graph complement:{:?}", graph.complement());

    let matching_polynomial = calculate_matching_polynomial_adaptive(graph);
    println!("About to test the standard data with missing");
    assert_eq!(matching_polynomial[..graph.graph_size() + 1], [1, 0, -4, 0, 1]);
}

#[test]
fn matching_polynomial_adaptive_5() {
    let chain_data = graph_words(&[0b11000, 0b1100, 0b110, 0b11, 0b1]);
    let graph = BinaryGraph::from(chain_data);

    let matching_polynomial = calculate_matching_polynomial_adaptive(graph);
    println!("Number of nodes: {}", graph.graph_size());
    assert_eq!(matching_polynomial[..graph.graph_size() + 1], [0, 3, 0, -4, 0, 1]);
}

#[test]
fn matching_polynomial_adaptive_6() {
    let chain_data = graph_words(&[0b110000, 0b11000, 0b1100, 0b110, 0b11, 0b1]);
    let graph = BinaryGraph::from(chain_data);

    let matching_polynomial = calculate_matching_polynomial_adaptive(graph);
    println!("Number of nodes: {}", graph.graph_size());
    assert_eq!(matching_polynomial[..graph.graph_size() + 1], [-1, 0, 6, 0, -5, 0, 1]);
}

#[test]
fn matching_polynomial_adaptive_7() {
    let chain_data = graph_words(&[0b1100000, 0b110000, 0b11000, 0b1100, 0b110, 0b11, 0b1]);
    let graph = BinaryGraph::from(chain_data);

    let matching_polynomial = calculate_matching_polynomial_adaptive(graph);
    assert_eq!(matching_polynomial[..graph.graph_size() + 1], [0, -4, 0, 10, 0, -6, 0, 1]);
}

#[test]
fn matching_polynomial_adaptive_8() {
    let chain_data =
        graph_words(&[0b11000000, 0b1100000, 0b110000, 0b11000, 0b1100, 0b110, 0b11, 0b1]);
    let graph = BinaryGraph::from(chain_data);

    let matching_polynomial = calculate_matching_polynomial_adaptive(graph);
    assert_eq!(matching_polynomial[..graph.graph_size() + 1], [1, 0, -10, 0, 15, 0, -7, 0, 1]);
}
