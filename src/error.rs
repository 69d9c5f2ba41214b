use vstd::prelude::*;

use crate::compression::Compression;

verus! {

/// Why a page could not be built.
#[derive(Debug, Clone, Copy, PartialEq, Eq, Structural)]
pub enum Error {
    /// The column does not fit the fixed-width counts of the page layout.
    Encoding,
    /// The algorithm is not available, or the compressor failed.
    Compression(Compression),
}

} // verus!
