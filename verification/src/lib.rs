//! Combinatorial core of spectral sheaf theory on graphs: undirected graphs,
//! stalk layouts of cellular sheaves, and the bookkeeping behind persistent H⁰.

pub mod graph;
pub mod laplacian;
pub mod walk;
pub mod sheaf;
pub mod persistent;
pub mod spectrum;
pub mod neural;
pub mod connection;

pub use connection::{connection_layout, ConnectionLayout};
pub use graph::Graph;
pub use neural::{layer_shapes, SimpleRng};
pub use persistent::PersistentSheaf;
pub use sheaf::{CoboundaryBlock, Sheaf};
pub use spectrum::{count_set_flags, first_set_flag, split_by_flag};
