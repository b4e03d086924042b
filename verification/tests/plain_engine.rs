use matching_polynomial::traits::Graph;
use matching_polynomial::{
    _calculate_matching_polynomial_binary, calculate_matching_polynomial_pointer,
    calculate_matching_polynomial_pointer_addresses, BinaryGraph,
};

fn words(head: &[u64]) -> [u64; 64] {
    let mut data = [0u64; 64];
    data[..head.len()].copy_from_slice(head);
    data
}

#[test]
fn static_polynomial_calculation_fully_connected() {
    let data = words(&[512, 256, 128, 64, 32, 16, 8, 4, 2, 1]);
    let graph = BinaryGraph::from(data);
    let graph_size = graph.graph_size();
    let matching_poly = calculate_matching_polynomial_pointer(graph);

    let graph2 = BinaryGraph::from(data);
    let matching_poly_2 = _calculate_matching_polynomial_binary(graph2);

    assert_eq!(&matching_poly[..=graph_size], matching_poly_2.data());
}

#[test]
fn get_addresses() {
    let data = words(&[10, 5, 3, 1]);
    let graph = BinaryGraph::from(data);
    let mut addresses: Vec<u64>;
    let (_, address_vec) = calculate_matching_polynomial_pointer_addresses(graph);
    addresses = address_vec;
    addresses.sort();
    let mut true_addresses = vec![0b1111, 0b1110, 0b110, 0b101, 0b0100];
    true_addresses.sort();
    assert_eq!(addresses, true_addresses);
}

#[test]
fn test_complement_fc() {
    let fc_data = words(&[0b11111, 0b1111, 0b111, 0b11, 0b1]);
    let graph = BinaryGraph::from(fc_data);

    let complement = graph.complement();
    assert_eq!(words(&[0b10000, 0b1000, 0b100, 0b10, 0b1]), complement.data());
}

#[test]
fn test_complement_standard() {
    let standard_data = words(&[0b11101, 0b1001, 0b110, 0b11, 0b1]);
    let graph_2 = BinaryGraph::from(standard_data);
    let complement_2 = graph_2.complement();
    assert_eq!(words(&[0b10010, 0b1110, 0b101, 0b10, 0b1]), complement_2.data());
}

#[test]
fn test_complement_standard_missing() {
    let standard_data_missing = words(&[0b11001, 0b1001, 0, 0b11, 0b1]);
    let graph_3 = BinaryGraph::from_graph_subset(standard_data_missing, 5);
    for element in graph_3.data().iter().take(5) {
        println!("element {:b}", element);
    }
    let complement_3 = graph_3.complement();
    for element in complement_3.data().iter().take(5) {
        println!("element {:b}", element);
    }
    assert_eq!(words(&[0b10010, 0b1010, 0, 0b10, 0b1]), complement_3.data());
}

#[test]
fn matching_polynomial_static() {
    let fc_data = words(&[0b1111, 0b111, 0b11, 0b1]);
    let graph = BinaryGraph::from(fc_data);

    let matching_polynomial = calculate_matching_polynomial_pointer(graph);
    assert_eq!(matching_polynomial[..graph.graph_size() + 1], [3, 0, 6, 0, 1]);
}

#[test]
fn matching_polynomial_static_2() {
    let standard_data = words(&[0b11001, 0b1001, 0b110, 0b11, 0b1]);
    let graph = BinaryGraph::from(standard_data);

    let matching_polynomial = calculate_matching_polynomial_pointer(graph);
    println!("standard data matching polynomial {:?}", matching_polynomial);
    assert_eq!(matching_polynomial[..graph.graph_size() + 1], [0, 4, 0, 5, 0, 1]);
}

#[test]
fn matching_polynomial_static_3() {
    let standard_data_missing = words(&[0b11001, 0b1001, 0, 0b11, 0b1]);
    let graph = BinaryGraph::from(standard_data_missing);
    let matching_polynomial = calculate_matching_polynomial_pointer(graph);
    assert_eq!(matching_polynomial[..graph.graph_size() + 1], [1, 0, 4, 0, 1]);
}

#[test]
fn test_density() {
    let fc_data = words(&[0b11111, 0b1111, 0b111, 0b11, 0b1]);
    let graph = BinaryGraph::from(fc_data);
    let (edges, possible) = graph.density();
    assert_eq!(edges as f64 / possible as f64, 1.0);
}

#[test]
fn test_edge_count() {
    let fc_data = words(&[0b11111, 0b1111, 0b111, 0b11, 0b1]);
    let graph = BinaryGraph::from(fc_data);
    assert_eq!(graph.edge_count(), 10);
}

#[test]
fn test_edge_count_2() {
    let standard_data_missing = words(&[0b11001, 0b1001, 0, 0b11, 0b1]);
    let graph = BinaryGraph::from(standard_data_missing);
    assert_eq!(graph.edge_count(), 4);
}
