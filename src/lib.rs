//! A reader for the Wavefront OBJ text format: geometric vertices, texture vertices, vertex
//! normals and faces.
//!
//! `text` holds the character-level rules (white space, splitting, integer and number
//! literals), `obj` the records and `parse`, `write` the inverse of `parse`, and `laws` facts
//! proved about what `parse` returns.

use vstd::prelude::*;

pub mod laws;
pub mod obj;
pub mod text;
pub mod write;

verus! {

} // verus!
