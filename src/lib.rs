//! Whitespace stripping for HTML-like template languages, with byte-origin tracking and
//! source-map support.
//!
//! - [`utf16`]: byte offset <-> (line, UTF-16 column) conversion.
//! - [`edit`]: the edit model, its validation, origin tables and source-map construction.
//! - [`cst`]: the parsed tree, as plain data.
//! - [`strip`]: gap detection, rotation and the public entry points.
//! - [`smap`]: the bindings to the `sourcemap` crate.
use vstd::prelude::*;

pub mod cst;
pub mod edit;
pub mod smap;
pub mod strip;
pub mod utf16;

verus! {

/// Errors that can occur during stripping.
#[derive(Debug)]
pub enum StripError {
    /// The parser produced no tree.
    ParseFailed,
    /// An edit breaks an invariant of the edit model.
    InvalidEdit(String),
    /// Two edits overlap: `[a_start, a_end)` and `[b_start, b_end)`.
    OverlappingEdits { a_start: usize, a_end: usize, b_start: usize, b_end: usize },
    /// The upstream source map could not be parsed, or the output map could not be written.
    SourceMap(sourcemap::Error),
}

} // verus!
