pub mod address_laws;
pub mod address_weighted_polynomial;
pub mod binary_weighted_polynomial;
pub mod laws;
pub mod weighted_graphs;

pub use address_weighted_polynomial::{
    weight_from_address, weighted_matching_polynomial_addresses,
    weighted_matching_polynomial_from_addresses,
};
pub use binary_weighted_polynomial::_calculate_weighted_matching_polynomial_binary;
pub use weighted_graphs::{get_weighted_deck, WeightedGraph, WEIGHT_COUNT};
