pub mod algebra;
pub mod bounds;
pub mod hermite;
pub mod laws;
pub mod outside;

pub use hermite::{hermadd, herme2poly, hermemulx, poly2herme};
