//! Performance model for directionally ordered ("sweep") traversals over an
//! unstructured mesh: builds per-direction task dependency graphs, partitions
//! cells across simulated processors, and simulates scheduled execution to
//! predict wall time, communication overhead and idle time.

pub mod command_line_args;
pub mod domain_decomposition;
pub mod graph;
pub mod grid;
pub mod run_data;
pub mod sweep;
pub mod vector_3d;

pub use vector_3d::Vector3D;
