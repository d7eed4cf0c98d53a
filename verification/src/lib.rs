//! Parsing and modeling of source annotations that tie product claims to
//! tests, code, and architecture.
pub mod model;
pub mod text;
pub mod order;
pub mod ids;
pub mod paths;
pub mod syntax;
pub mod planned_syntax;
pub mod parser;
pub mod modules;
pub mod source_items;
pub mod language_packs;
