//! The TypeScript language pack: which files it analyzes, which items form
//! the review surface, and how reported paths map to candidate files.
pub mod analyze;
pub mod boundary;
pub mod surface;
