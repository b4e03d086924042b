pub mod matching_poly;

pub use matching_poly::{calculate_matching_polynomial_raw, get_deck, GraphData, GraphProperties};
