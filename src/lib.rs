//! Wayfinding and range queries over a static space graph: systems joined by
//! stargates and wormholes.
//!
//! A `SpaceGraph` is built once from loaded systems and connections, a
//! `GraphOverlay` layers temporary edges over it, a `Rule` decides which
//! traversals are admissible and at what cost. `find_path` and
//! `nodes_within_hops` answer queries against any `GraphView`;
//! `nodes_within_distance` scans the nodes of a `SpaceGraph`.
pub mod graph;
pub mod navigation;
pub mod rules;
pub mod source;
pub mod types;

pub use graph::{ConstructionError, GraphOverlay, GraphView, OverlayError, SpaceGraph};

pub use navigation::{find_path, nodes_within_distance, nodes_within_hops, RouteError};
pub use rules::{Combinator, PenaltyTable, Rule};
pub use source::{stargate_type, DatabaseBuilder};
pub use types::{Coordinate, Edge, EdgeKind, Node, NodeId, SecurityClass, StargateType};
