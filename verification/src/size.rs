//! Sizes in physical pixels.

use vstd::prelude::*;

verus! {

/// A width and a height in physical pixels.
#[derive(Debug, Clone, Copy, PartialEq, Eq, Structural, Hash)]
pub struct PixelSize {
    /// Pixels per row.
    pub width: u32,
    /// Rows.
    pub height: u32,
}

impl PixelSize {
    /// A size of `width` x `height` pixels.
    pub fn new(width: u32, height: u32) -> (size: Self)
        ensures
            size.width == width,
            size.height == height,
    {
        PixelSize { width, height }
    }

    /// Bytes of an RGBA8 buffer of this size.
    pub open spec fn rgba_len(self) -> int {
        self.width as int * self.height as int * 4
    }

    /// The size after averaging `factor` x `factor` blocks: each side divided
    /// by `factor`, rounded up so a partial block at the far edge survives,
    /// and never below one pixel.
    pub open spec fn spec_downscaled(self, factor: int) -> PixelSize
        recommends
            factor > 0,
    {
        PixelSize { width: divided_side(self.width as int, factor) as u32, height: divided_side(self.height as int, factor) as u32 }
    }
}

/// `side / factor` rounded up, and at least one.
pub open spec fn divided_side(side: int, factor: int) -> int
    recommends
        factor > 0,
{
    let q = (side + factor - 1) / factor;
    if q < 1 {
        1
    } else {
        q
    }
}

/// `side` divided by `factor`, rounded up, and at least one.
pub fn divide_side(side: u32, factor: u32) -> (out: u32)
    requires
        factor > 0,
    ensures
        out == divided_side(side as int, factor as int),
{
    let q = side / factor;
    let exact = side % factor == 0;
    assert(!exact ==> q < u32::MAX) by (nonlinear_arith)
        requires
            factor > 0,
            q == side / factor,
            exact == (side % factor == 0),
    ;
    let out = if exact {
        q
    } else {
        q + 1
    };
    assert(out as int == (side as int + factor as int - 1) / factor as int) by (nonlinear_arith)
        requires
            factor > 0,
            q == side / factor,
            exact == (side % factor == 0),
            exact ==> out == q,
            !exact ==> out == q + 1,
    ;
    if out < 1 {
        1
    } else {
        out
    }
}

/// A divided side is at least one, and no larger than the side it came
/// from unless that side was empty.
pub proof fn lemma_divided_side_bounds(side: int, factor: int)
    requires
        side >= 0,
        factor > 0,
    ensures
        1 <= divided_side(side, factor),
        side >= 1 ==> divided_side(side, factor) <= side,
        (divided_side(side, factor) - 1) * factor < side || side == 0,
{
    let q = (side + factor - 1) / factor;
    assert(q >= 0) by (nonlinear_arith)
        requires
            side >= 0,
            factor > 0,
            q == (side + factor - 1) / factor,
    ;
    assert(side >= 1 ==> q <= side) by (nonlinear_arith)
        requires
            side >= 0,
            factor > 0,
            q == (side + factor - 1) / factor,
    ;
    assert(side >= 1 ==> (q - 1) * factor < side) by (nonlinear_arith)
        requires
            side >= 0,
            factor > 0,
            q == (side + factor - 1) / factor,
    ;
    assert(side >= 1 ==> q >= 1) by (nonlinear_arith)
        requires
            side >= 0,
            factor > 0,
            q == (side + factor - 1) / factor,
    ;
}

/// Dividing a picture of at least one pixel by one leaves it as it was, so
/// a downscale of one produces exactly the size the derived texture was
/// promised.
pub proof fn lemma_unit_downscale(size: PixelSize)
    requires
        size.width >= 1,
        size.height >= 1,
    ensures
        size.spec_downscaled(1) == size,
{
}

} // verus!
