//! A directed multigraph whose edges live in one append-only arena and are
//! threaded onto two intrusive singly-linked lists per node, one for the
//! outgoing and one for the incoming side.
//!
//! Nodes and edges carry caller-chosen payloads. Handles are plain arena
//! positions and stay valid until a rollback discards what they name.
//!
//! Every function states its result over [`GraphModel`], the sequence of
//! node payloads and the sequence of edges with their endpoints. The links
//! between edges are not part of the model: [`Graph::wf`] ties them to it.

pub mod index;
pub mod model;
pub mod graph;
pub mod adjacent;
pub mod iterate;
pub mod bits;
pub mod traverse;
pub mod laws;

pub use index::Direction;
pub use index::EdgeIndex;
pub use index::NodeIndex;
pub use index::INCOMING;
pub use index::INVALID_EDGE_INDEX;
pub use index::OUTGOING;
pub use model::EdgeModel;
pub use model::GraphModel;
pub use graph::Edge;
pub use graph::Graph;
pub use graph::Node;
pub use graph::Snapshot;
pub use adjacent::node_ids;
pub use adjacent::AdjacentEdges;
pub use iterate::each_edge_index;
pub use traverse::DepthFirstTraversal;
