//! Sizes in bytes.

use vstd::prelude::*;

verus! {

/// A number of bytes.
#[derive(Debug, Clone, Copy, PartialEq, Eq, PartialOrd, Ord, Hash, Structural)]
pub struct ByteSize(pub u64);

impl ByteSize {
    /// The number.
    #[must_use]
    pub fn bytes(self) -> (r: u64)
        ensures
            r == self.0,
    {
        self.0
    }
}

impl Default for ByteSize {
    fn default() -> (r: Self)
        ensures
            r.0 == 0,
    {
        ByteSize(0)
    }
}

} // verus!
