//! Decision diagram algorithms with proved contracts.

pub mod complement_edge;
pub mod ldd;
pub mod util;
