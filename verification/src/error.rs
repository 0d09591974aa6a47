//! Error taxonomy of the engine.

use vstd::prelude::*;

verus! {

/// Everything that can go wrong inside the engine.
#[derive(Clone, Copy, Debug, PartialEq, Eq, Structural)]
pub enum EditError {
    /// A character index beyond a row's character count was asked to be
    /// translated to a byte offset. Recoverable by clamping, never fatal.
    IndexOutOfRange,
    /// An event could not be applied safely and was dropped; the document
    /// state is untouched and stays valid.
    EngineFault,
    /// Raw document content could not be turned into rows; fatal to buffer
    /// construction.
    LoadFailure,
}

} // verus!
