//! A minimal ownership-and-relationship graph: a tree of lightweight nodes held in an
//! append-only store, addressed either by position or by a dot-separated path of names,
//! and walked by caller-supplied visitors.

pub mod graph;
pub mod handle;
pub mod laws;
pub mod model;
pub mod node;
pub mod shape;
pub mod text;
pub mod traverse;
pub mod tree;
pub mod visitor;



pub use graph::MachGraph;
pub use handle::Handle;
pub use model::{GraphModel, HandleModel, NodeModel};
pub use node::MachNode;
pub use visitor::Visitor;
