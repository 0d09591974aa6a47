//! The tick-driven lifecycle.

use vstd::prelude::*;

use crate::error::EditError;

verus! {

/// Implemented by everything that advances once per engine tick.
pub trait Lifecycle {
    /// The well-formedness that a tick must find and must leave behind.
    spec fn inv(&self) -> bool;

    /// Advance by one tick. A soft failure reports that some work was
    /// dropped; it never leaves the implementor ill-formed.
    fn tick(&mut self) -> (r: Result<(), EditError>)
        requires
            old(self).inv(),
        ensures
            final(self).inv(),
    ;
}

} // verus!
