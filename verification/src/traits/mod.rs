pub mod graph;

pub use graph::{get_deck, Graph};
