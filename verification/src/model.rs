//! Domain types: core primitives, spec modeling, architecture modeling, and
//! analysis summaries.
pub mod core_types;
pub mod spec;
pub mod analysis;
pub mod architecture;
pub mod overview;
