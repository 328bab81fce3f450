//! Verified core of an STR (short tandem repeat) interruption profiler.
//!
//! The library characterizes repeat instability by aligning observed
//! repeat-region reads against a synthetic pure-repeat reference, extracting
//! interruption runs from the alignment path, aggregating them per sample,
//! and merging many per-sample profiles into one depth-normalized cohort
//! profile.  All text is handled as byte sequences; file reading and
//! floating-point rendering live outside the library.

pub mod align;
pub mod bytesutil;
pub mod catalog;
pub mod codec;
pub mod merge;
pub mod profile;
pub mod utils;

use vstd::prelude::*;

verus! {

/// Errors raised by the library.  Fatal conditions of a run are reported as
/// values of this type; the library's verified functions never panic.
#[derive(Debug, Clone, PartialEq, Eq)]
pub enum StrifError {
    /// A catalog record lacks a required field or its structure string is
    /// too short to strip the structural wrapper.
    MalformedCatalogEntry,
    /// The catalog document is not an array of records.
    MalformedCatalog,
    /// A supplied locus filter is not a valid regular expression.
    InvalidFilter,
    /// A table row does not have the required number of fields.
    MalformedRow,
    /// A numeric field does not parse as a non-negative integer.
    MalformedNumber,
    /// An interruption cell entry does not have the `interruption:len:count`
    /// shape.
    MalformedCell,
    /// A read-depth value does not parse as a decimal number.
    MalformedDepth,
    /// A sample contributing interruption data has no read-depth entry.
    MissingDepth,
    /// A catalog motif is empty, so no pure reference can be tiled from it.
    EmptyMotif,
    /// A pure reference sequence would exceed the addressable length.
    PureSeqTooLong,
    /// An alignment would be too large for its scores to stay representable.
    AlignmentTooLarge,
}

} // verus!
