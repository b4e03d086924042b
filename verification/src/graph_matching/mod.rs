pub mod graphs;
pub mod matching_poly;

pub use graphs::{get_deck, Graph};
pub use matching_poly::calculate_matching_polynomial_pointer;
