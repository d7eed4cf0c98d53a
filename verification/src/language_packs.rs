//! Language packs: the per-language parts of analysis.
pub mod typescript;
