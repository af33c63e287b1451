//! A viewer library for documents written in a legacy two-nibble colour
//! markup: a colour codec, a line compiler, separator generation, a
//! document compiler, a scroll state machine and a substring search engine.

use vstd::prelude::*;

pub mod ansi;
pub mod parser;
pub mod search;
pub mod state;

verus! {

/// The failures that document compilation can report.
#[derive(Clone, Copy, Debug, PartialEq, Eq, Structural)]
pub enum CatError {
    /// A colour code was not exactly two hex digits.
    InvalidColorCode,
    /// A markup segment was shorter than the two-character colour code.
    MalformedSegment,
    /// A separator was requested for a width too small to hold its caps.
    InvalidWidth,
}

} // verus!
