//! The corner a collapsing warp heads for.

use vstd::prelude::*;

verus! {

/// The corner of the content a genie collapses into.
#[derive(Debug, Clone, Copy, PartialEq, Eq, Structural)]
pub enum Corner {
    /// The content's top-left corner.
    TopLeft,
    /// The content's top-right corner.
    TopRight,
    /// The content's bottom-left corner.
    BottomLeft,
    /// The content's bottom-right corner.
    BottomRight,
}

impl Corner {
    /// Whether this corner lies on the right edge.
    pub open spec fn is_right(self) -> bool {
        self == Corner::TopRight || self == Corner::BottomRight
    }

    /// Whether this corner lies on the bottom edge.
    pub open spec fn is_bottom(self) -> bool {
        self == Corner::BottomLeft || self == Corner::BottomRight
    }

    /// Whether the normalised axes are mirrored to put this corner at the
    /// origin: horizontally for a right-hand corner, vertically for a bottom
    /// one.
    pub fn flips(self) -> (flips: (bool, bool))
        ensures
            flips == (self.is_right(), self.is_bottom()),
    {
        match self {
            Corner::TopLeft => (false, false),
            Corner::TopRight => (true, false),
            Corner::BottomLeft => (false, true),
            Corner::BottomRight => (true, true),
        }
    }
}

/// Each corner mirrors the axes its own way: no two corners flip alike.
pub proof fn lemma_flips_name_the_corner(a: Corner, b: Corner)
    ensures
        (a.is_right(), a.is_bottom()) == (b.is_right(), b.is_bottom()) ==> a == b,
{
}

} // verus!
