//! Errors of the tokenizer.

use vstd::prelude::*;

verus! {

/// Why a parse failed. Every error ends the parse call that produced it.
#[derive(Debug, Copy, Clone, PartialEq, Eq)]
pub enum Error {
    /// The buffer ended inside a value: an open container, a dangling
    /// dictionary key or a cut-off literal.
    Eof,
    /// A byte that cannot start or continue a value at this position.
    Unexpected { pos: usize },
    /// Input that is shaped like Bencode but breaks one of its rules.
    Invalid { reason: &'static str, pos: usize },
    /// The token ceiling was reached.
    NoMemory,
    /// An integer literal outside the signed 64-bit range.
    Overflow { pos: usize },
}

} // verus!
