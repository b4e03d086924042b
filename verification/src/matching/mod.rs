pub mod base;

pub use base::calculate_matching_polynomial_static;
