pub mod laws;
pub mod lineage;
pub mod model;
pub mod store;

pub use lineage::{Lineage, Name};
pub use store::LineageGraph;
