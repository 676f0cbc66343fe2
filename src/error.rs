//! Errors reported by the library.

use vstd::prelude::*;

verus! {

/// What went wrong while building, loading or saving a graph.
#[derive(Debug, Clone, Copy, PartialEq, Eq, Structural)]
pub enum GraphError {
    /// A required source or destination path could not be opened.
    OpeningFile,
    /// Malformed input, or edges out of order by source.
    ParseError,
    /// Reading or writing the CSR arrays failed, or they are inconsistent.
    LoadError,
    /// Creating a directory or reading file metadata failed.
    FsError,
}

} // verus!
