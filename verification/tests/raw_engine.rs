use matching_polynomial::matching_raw_memory::{calculate_matching_polynomial_raw, GraphProperties};
use matching_polynomial::{_calculate_matching_polynomial_binary, BinaryGraph};

#[test]
fn raw_polynomial_calculation_fully_connected() {
    let mut data = [0u64; 64];
    data[..10].copy_from_slice(&[512, 256, 128, 64, 32, 16, 8, 4, 2, 1]);

    let graph = data;
    let graph_size = graph.graph_size();
    let matching_poly = calculate_matching_polynomial_raw(graph);

    let graph2 = BinaryGraph::from(data);
    let matching_poly_2 = _calculate_matching_polynomial_binary(graph2);

    assert_eq!(&matching_poly[..=graph_size], matching_poly_2.data());
}
