//! The ways in which chunking fails.

use vstd::prelude::*;

verus! {

/// Why a script could not be chunked. Each of them says that the script or
/// the configuration is at fault; none goes away on a second try.
#[derive(Debug, Clone, Copy, PartialEq, Eq, Structural)]
pub enum ChunkError {
    /// More conditionals were closed than had been opened.
    NegativeBalance,
    /// A chunk came out empty: what is next does not fit the target size.
    ZeroSizeChunk,
    /// The stack analysis reported an access above the start of the stack,
    /// or a chunk that leaves fewer items than it took.
    InvalidStackStatus,
}

} // verus!
