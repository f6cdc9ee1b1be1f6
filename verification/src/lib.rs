//! All-pairs optimal path costs over a finite weighted directed graph,
//! computed with a generalized Floyd-Warshall relaxation engine that is
//! parameterized by a combination operator and an acceptance comparator.

pub mod floyd_warshall;
pub mod graph;
pub mod result;

pub use crate::floyd_warshall::FloydWarshall;
pub use crate::floyd_warshall::FloydWarshallTrait;
pub use crate::graph::Graph;
pub use crate::result::FloydWarshallResult;
