//! A rail-network graph library: entities (nodes, ways, relations) are read
//! into an in-memory multigraph, which is then partitioned into labeled
//! regions grown from seed entities, or searched for a weighted shortest
//! path between two entities.

pub mod entity;
pub mod graph;
pub mod partition;
pub mod pathfind;
pub mod report;
pub mod strutil;
pub mod traverse;
