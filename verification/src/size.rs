use vstd::prelude::*;

verus! {

/// A non-negative byte count. Values are created when a file is measured and
/// summed bottom-up while the tree is built; a `Size` never changes once made.
#[derive(Clone, Copy, PartialEq, Eq, PartialOrd, Ord, Structural, Debug)]
pub struct Size(pub u64);

impl Size {
    pub fn new(bytes: u64) -> (s: Size)
        ensures
            s.0 == bytes,
    {
        Size(bytes)
    }

    /// Sum of two byte counts. The caller is responsible for the sum
    /// fitting in the 64-bit range.
    pub fn add(self, other: Size) -> (r: Size)
        requires
            self.0 + other.0 <= u64::MAX,
        ensures
            r.0 == self.0 + other.0,
    {
        Size(self.0 + other.0)
    }
}

} // verus!
