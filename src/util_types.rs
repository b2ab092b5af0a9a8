//! Small wrapper types.
use vstd::prelude::*;

verus! {

/// A wrapper for a value the library carries without looking inside, such
/// as a device handle; it derives `Debug` and `Clone` from its contents.
#[derive(Debug, Clone)]
pub struct DebugIt<T>(pub T);

impl<T> DebugIt<T> {
    /// The wrapped value.
    pub fn inner(&self) -> (r: &T)
        ensures
            *r == self.0,
    {
        &self.0
    }
}

} // verus!
