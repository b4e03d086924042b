use matching_polynomial::weighted_graph_matching::{
    _calculate_weighted_matching_polynomial_binary, weight_from_address,
    weighted_matching_polynomial_addresses, weighted_matching_polynomial_from_addresses,
    WeightedGraph,
};
use matching_polynomial::{
    _calculate_matching_polynomial_binary, calculate_matching_polynomial_pointer_addresses,
    BinaryGraph,
};
use matching_polynomial::traits::Graph;

fn adjacency(head: &[u64]) -> [u64; 64] {
    let mut data = [0u64; 64];
    data[..head.len()].copy_from_slice(head);
    data
}

fn weight_matrix(head: &[i64; 16]) -> [i64; 4096] {
    let mut weights = [0i64; 4096];
    weights[..16].copy_from_slice(head);
    weights
}

#[test]
fn weighted_polynomial_test() {
    let data = adjacency(&[10, 5, 3, 1]);
    let weights_1 = weight_matrix(&[1; 16]);
    let weights_2 = weight_matrix(&[2; 16]);
    let weighted_graph_1 = WeightedGraph::from(data, weights_1);
    let weighted_graph_2 = WeightedGraph::from(data, weights_2);
    let graph_1 = BinaryGraph::from(data);
    let graph_2 = BinaryGraph::from(data);

    let weighted_matching_polynomial_1 =
        _calculate_weighted_matching_polynomial_binary(weighted_graph_1);
    let weighted_matching_polynomial_2 =
        _calculate_weighted_matching_polynomial_binary(weighted_graph_2);
    let matching_polynomial_1 = _calculate_matching_polynomial_binary(graph_1);
    let matching_polynomial_2 = _calculate_matching_polynomial_binary(graph_2);
    assert_eq!(matching_polynomial_1.data(), &[1, 0, 3, 0, 1]);
    assert_eq!(matching_polynomial_2.data(), &[1, 0, 3, 0, 1]);
    assert_eq!(weighted_matching_polynomial_1.data(), &[1, 0, 3, 0, 1]);
    assert_eq!(weighted_matching_polynomial_2.data(), &[16, 0, 12, 0, 1]);
}

#[test]
fn weighted_polynomial_test_2() {
    let data = adjacency(&[9, 6, 3, 1]);
    let weights_1 = weight_matrix(&[1; 16]);
    let weights_2 = weight_matrix(&[2; 16]);
    let weighted_graph_1 = WeightedGraph::from(data, weights_1);
    let weighted_graph_2 = WeightedGraph::from(data, weights_2);
    let graph_1 = BinaryGraph::from(data);
    let graph_2 = BinaryGraph::from(data);

    let weighted_matching_polynomial_1 =
        _calculate_weighted_matching_polynomial_binary(weighted_graph_1);
    let weighted_matching_polynomial_2 =
        _calculate_weighted_matching_polynomial_binary(weighted_graph_2);
    let matching_polynomial_1 = _calculate_matching_polynomial_binary(graph_1);
    let matching_polynomial_2 = _calculate_matching_polynomial_binary(graph_2);
    println!("matching polynomial 2: {:?}", weighted_matching_polynomial_2.data());
    assert_eq!(matching_polynomial_1.data(), &[1, 0, 3, 0, 1]);
    assert_eq!(matching_polynomial_2.data(), &[1, 0, 3, 0, 1]);
    assert_eq!(weighted_matching_polynomial_1.data(), &[1, 0, 3, 0, 1]);
    assert_eq!(weighted_matching_polynomial_2.data(), &[16, 0, 12, 0, 1]);
}

#[test]
fn weighted_polynomial_test_3() {
    let data = adjacency(&[10, 5, 3, 1]);
    let weights_1 = weight_matrix(&[1; 16]);
    let weights_2 = weight_matrix(&[1, 1, -2, 1, 1, 1, 1, -2, -2, 1, 1, -2, 1, -2, -2, 1]);
    let weighted_graph_1 = WeightedGraph::from(data, weights_1);
    let weighted_graph_2 = WeightedGraph::from(data, weights_2);
    let graph_1 = BinaryGraph::from(data);
    let graph_2 = BinaryGraph::from(data);

    let weighted_matching_polynomial_1 =
        _calculate_weighted_matching_polynomial_binary(weighted_graph_1);
    let weighted_matching_polynomial_2 =
        _calculate_weighted_matching_polynomial_binary(weighted_graph_2);
    let matching_polynomial_1 = _calculate_matching_polynomial_binary(graph_1);
    let matching_polynomial_2 = _calculate_matching_polynomial_binary(graph_2);

    println!("weightd matching polynomial 1: {:?}", weighted_matching_polynomial_1.data());
    println!("weighted matching polynomial 2: {:?}", weighted_matching_polynomial_2.data());

    assert_eq!(matching_polynomial_1.data(), &[1, 0, 3, 0, 1]);
    assert_eq!(matching_polynomial_2.data(), &[1, 0, 3, 0, 1]);
    assert_eq!(weighted_matching_polynomial_1.data(), &[1, 0, 3, 0, 1]);
    assert_eq!(weighted_matching_polynomial_2.data(), &[16, 0, 12, 0, 1]);
}

#[test]
fn weight_from_address_test() {
    let weights_1 = weight_matrix(&[0, 0, 0, 3, 0, 0, 2, 0, 0, 2, 0, 4, 3, 0, 4, 0]);

    // one weight
    let address = 0b1110;
    let weight = weight_from_address(address, &weights_1, 4);
    assert_eq!(weight, 4);

    // two weights
    let address = 0b100;
    let weight = weight_from_address(address, &weights_1, 4);
    assert_eq!(weight, 6);

    let address = 0b110;
    let weight = weight_from_address(address, &weights_1, 4);
    assert_eq!(weight, 2);
}

#[test]
fn weight_from_address_test_2() {
    let weights_1 = weight_matrix(&[0, 0, 3, 0, 0, 0, 0, 2, 3, 0, 0, 4, 0, 2, 4, 0]);

    // one weight
    let address = 0b1110;
    let weight = weight_from_address(address, &weights_1, 4);
    assert_eq!(weight, 4);

    // two weights
    let address = 0b100;
    let weight = weight_from_address(address, &weights_1, 4);
    assert_eq!(weight, 6);

    let address = 0b110;
    let weight = weight_from_address(address, &weights_1, 4);
    assert_eq!(weight, 2);
}

#[test]
fn get_polynomial_with_addresses() {
    let weights_1 = weight_matrix(&[0, 0, 3, 0, 0, 0, 0, 2, 3, 0, 0, 4, 0, 2, 4, 0]);

    let true_addresses: Vec<u64> = vec![0b1111, 0b1110, 0b110, 0b101, 0b0100];
    let mut polynomial_coefficients = vec![1, 0, 3, 0, 1];
    true_addresses.iter().for_each(|x| {
        let address = *x;
        let weight = weight_from_address(address, &weights_1, 4);

        // get the number of zeroes
        polynomial_coefficients
            [4 - 2 * (address.count_zeros() - address.leading_zeros()) as usize] += weight - 1;
    });
    assert_eq!(vec![6, 0, 9, 0, 1], polynomial_coefficients);
}

#[test]
fn get_polynomial_with_addresses_2() {
    let data = adjacency(&[0b1101, 0b110, 0b11, 0b1]);
    let weights_1 = weight_matrix(&[0, 2, 0, 2, 2, 0, 2, 0, 0, 2, 0, 2, 2, 0, 2, 0]);

    let graph = BinaryGraph::from(data);
    let (_, addresses) = calculate_matching_polynomial_pointer_addresses(graph);
    let mut polynomial_coefficients: Vec<i64> = vec![0, 0, 0, 0, 0];

    addresses.iter().for_each(|x| {
        let address = *x;
        let weight = weight_from_address(address, &weights_1, 4);

        // get the number of zeroes
        let index = 4 - 2 * (address.count_zeros() - address.leading_zeros()) as usize;
        polynomial_coefficients[index] = polynomial_coefficients[index] + weight;
    });
    assert_eq!(vec![8, 0, 8, 0, 1], polynomial_coefficients);
}

#[test]
fn test_weighted_polynomial_static_addresses() {
    let data = adjacency(&[0b1101, 0b110, 0b11, 1]);
    let weights = weight_matrix(&[0, 2, 0, 2, 2, 0, 2, 0, 0, 2, 0, 2, 2, 0, 2, 0]);
    let graph = BinaryGraph::from(data);

    let weighted_polynomial = weighted_matching_polynomial_addresses(graph, &weights);
    assert_eq!(weighted_polynomial[..5], [8, 0, 8, 0, 1]);
}

#[test]
fn test_weighted_matching_polynomial_from_addresses() {
    let data = adjacency(&[0b1101, 0b110, 0b11, 1]);
    let weights = weight_matrix(&[0, 2, 0, 2, 2, 0, 2, 0, 0, 2, 0, 2, 2, 0, 2, 0]);
    let graph = BinaryGraph::from(data);

    // get the addresses from the graph:
    let (_, addresses) = calculate_matching_polynomial_pointer_addresses(graph);

    let weighted_polynomial = weighted_matching_polynomial_from_addresses(
        addresses,
        &weights,
        graph.initial_graph_size(),
    );
    assert_eq!(weighted_polynomial[..5], [8, 0, 8, 0, 1]);
}
