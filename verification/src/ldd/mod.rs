//! List decision diagrams: sets of vectors of numbers.

pub mod accumulator;
pub mod apply;
pub mod arcs;
pub mod closure;
pub mod demand;
pub mod error_laws;
pub mod event_laws;
pub mod firing;
pub mod laws;
pub mod level;
pub mod manager;
pub mod saturate;
pub mod semantics;
