//! Graph containers and the degree-sequence engine.

pub mod adjacency;
pub mod counts;
pub mod directed;
pub mod edge;
pub mod edge_list;
pub mod quota;
mod sampling;
pub mod store;
pub mod switching;
pub mod tally;
pub mod undirected;

pub use adjacency::Graph;
pub use edge::Edge;
pub use store::SwitchGraph;
