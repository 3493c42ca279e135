//! Detection of double-free-on-unwind hazards by abstract interpretation
//! of a function's control-flow graph.
pub mod catalog;
pub mod context;
pub mod cfg;
pub mod diagnosis;
pub mod domain;
pub mod summary;
pub mod visitor;
