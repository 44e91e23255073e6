pub mod counting;
pub mod indegree;
pub mod kahn;
pub mod order;
pub mod graph;
pub mod sobject;
pub mod resolver;

pub use graph::DirectedGraph;
pub use sobject::{DeleteConstraint, LookupField, LookupType, SObject, is_sobject};
pub use resolver::{OrderError, delete_order, map_name_to_index, to_graph};
