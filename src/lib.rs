//! Out-of-core graph analytics over graphs stored in Compressed Sparse Row
//! (CSR) form, with a double-buffered vertex-centric compute engine.

pub mod compute;
pub mod csr;
pub mod reading;
pub mod text;
pub mod error;
pub mod graph;
pub mod util;

pub use error::GraphError;
pub use graph::{Graph, GraphIterator};
