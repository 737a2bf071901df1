//! The consumer side of the service composition: a synchronous handler for
//! decoded items.

use vstd::prelude::*;

verus! {

/// A synchronous handler invoked with one decoded item; side effects only,
/// no constraints on internal behavior.
pub trait Consumer {
    type Request;

    fn consume(&self, message: Self::Request);
}

} // verus!
