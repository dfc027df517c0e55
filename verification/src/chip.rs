//! A chip of the enter/exit lane the examples animate.

use vstd::prelude::*;

verus! {

/// One chip in the enter/exit lane.
#[derive(Debug, Clone, Copy, PartialEq, Eq, Structural)]
pub struct Chip {
    /// Stable identity, minted by the page that owns the lane.
    pub id: u64,
    /// Set when the user removes it; it keeps being drawn until its exit
    /// animation is over.
    pub leaving: bool,
}

impl Chip {
    /// A chip that is present and staying.
    pub fn new(id: u64) -> (chip: Self)
        ensures
            chip.id == id,
            !chip.leaving,
    {
        Chip { id, leaving: false }
    }
}

} // verus!
