//! The failures that end a run.

use vstd::prelude::*;

verus! {

/// Why a stage gave up. Neither kind is recoverable: the caller reports it and
/// stops.
#[derive(Clone, Copy, PartialEq, Eq, Structural, Debug)]
pub enum CoreError {
    /// Pixel data that is no image: its length does not match its dimensions,
    /// or a tile has no pixel to take a colour from.
    Decode,
    /// A tile name that is not a list of hexadecimal code points.
    Format,
}

} // verus!
