//! Turns rows of named text fields into nested documents.
//!
//! A header may name a path, its parts joined by a separator; the cell of
//! that column then lands in nested mappings.  Fields of one row that land
//! on the same key are merged rather than overwritten.

pub mod model;
pub mod value;
pub mod merge;
pub mod path;
pub mod row;
pub mod laws;
pub mod sys;
