//! Matching polynomials of undirected graphs over a bit-packed adjacency
//! encoding, with exact integer arithmetic throughout.

pub mod binary_graph_matching;
pub mod bits;
pub mod complement;
pub mod complete;
pub mod graph_matching;
pub mod matching;
pub mod matching_raw_memory;
pub mod matchings;
pub mod polynomials;
pub mod recurrence;
pub mod reference;
pub mod traits;
pub mod weighted_graph_matching;
pub mod words;

pub use binary_graph_matching::{
    _calculate_matching_polynomial_binary, calculate_matching_polynomial_adaptive,
    calculate_matching_polynomial_pointer, calculate_matching_polynomial_pointer_addresses,
    BinaryGraph,
};
