pub mod adaptive;
pub mod adaptive_laws;
pub mod binary_representation;
pub mod matching_poly;

pub use binary_representation::BinaryGraph;
pub use matching_poly::{
    _calculate_matching_polynomial_binary, calculate_matching_polynomial_adaptive,
    calculate_matching_polynomial_pointer, calculate_matching_polynomial_pointer_addresses,
};
