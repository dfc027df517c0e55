//! What "a blur of sigma 12" means on integers: the downscale, the derived
//! texture's size and identity, and the texels a pane of glass covers.

use vstd::prelude::*;

use crate::size::{PixelSize, divide_side};
use crate::texture_cache::TextureCacheId;

verus! {

/// Frames a derived texture (or a pooled render target) may go unused
/// before it is released.
pub const DERIVED_IDLE_FRAMES: u32 = 60;

/// The coarsest downscale the chain supports: three halvings.
pub const MAX_DOWNSCALE: u32 = 8;

/// The block of derived texels a pane of glass covers.
#[derive(Debug, Clone, Copy, PartialEq, Eq, Structural, Hash)]
pub struct Crop {
    /// First column.
    pub x: u32,
    /// First row.
    pub y: u32,
    /// Columns.
    pub width: u32,
    /// Rows.
    pub height: u32,
}

/// A resolved blur request: everything the backends need, and nothing that
/// changes between frames.
#[derive(Debug, Clone, Copy, PartialEq, Eq, Structural, Hash)]
pub struct Blur {
    /// Sigma in half pixels of the source texture.
    pub sigma_halves: u32,
    /// Power of two in `1..=MAX_DOWNSCALE`.
    pub downscale: u32,
}

/// Identity of one derived blur texture: two panes of glass over the same
/// source at the same radius and downscale share one.
#[derive(Debug, Clone, Copy, PartialEq, Eq, Structural, Hash)]
pub struct DerivedKey {
    source: TextureCacheId,
    sigma_halves: u32,
    downscale: u32,
}

/// The automatic downscale for a sigma of `sigma_halves` half pixels: the
/// coarsest power of two that still leaves at least three target pixels of
/// blur for the kernel, `clamp(2^floor(log2(sigma / 3)), 1, 8)`, and 1 when
/// the sigma is three pixels or less.
pub open spec fn spec_automatic_downscale(sigma_halves: int) -> int {
    if sigma_halves < 12 {
        1
    } else if sigma_halves < 24 {
        2
    } else if sigma_halves < 48 {
        4
    } else {
        8
    }
}

/// See [`spec_automatic_downscale`].
pub fn automatic_downscale(sigma_halves: u32) -> (factor: u32)
    ensures
        factor == spec_automatic_downscale(sigma_halves as int),
{
    if sigma_halves < 12 {
        1
    } else if sigma_halves < 24 {
        2
    } else if sigma_halves < 48 {
        4
    } else {
        8
    }
}

/// Between three pixels of sigma and the point where the clamp binds, the
/// automatic downscale leaves the kernel between three and six target
/// pixels: never less, because the exponent is floored, and never six,
/// because that is the next halving.
pub proof fn lemma_automatic_residual(sigma_halves: int)
    requires
        6 < sigma_halves < 96,
    ensures
        6 * spec_automatic_downscale(sigma_halves) <= sigma_halves < 12 * spec_automatic_downscale(
            sigma_halves,
        ),
        is_chain_factor(spec_automatic_downscale(sigma_halves)),
{
}

impl Blur {
    /// The blur of `sigma_halves` half pixels of the source texture at the
    /// requested `downscale`: 0 asks for [`automatic_downscale`], anything
    /// else is rounded by [`nearest_power_of_two`].
    pub fn from_sigma_halves(sigma_halves: u32, downscale: u32) -> (blur: Self)
        ensures
            blur.sigma_halves == sigma_halves,
            downscale == 0 ==> blur.downscale == spec_automatic_downscale(sigma_halves as int),
            downscale != 0 ==> blur.downscale == nearest_chain_factor(downscale),
            is_chain_factor(blur.downscale as int),
    {
        let downscale = if downscale == 0 {
            automatic_downscale(sigma_halves)
        } else {
            nearest_power_of_two(downscale)
        };
        Blur { sigma_halves, downscale }
    }

    /// Size of the derived texture for a source of `source` physical
    /// pixels: each side divided by the downscale, rounded up so the far
    /// edge keeps its partial block, and never below one pixel.
    pub fn target_size(self, source: PixelSize) -> (target: PixelSize)
        requires
            self.downscale > 0,
        ensures
            target == source.spec_downscaled(self.downscale as int),
    {
        PixelSize {
            width: divide_side(source.width, self.downscale),
            height: divide_side(source.height, self.downscale),
        }
    }

    /// The identity of the derived texture this request builds over
    /// `source`.
    pub closed spec fn spec_key(self, source: TextureCacheId) -> DerivedKey {
        DerivedKey { source, sigma_halves: self.sigma_halves, downscale: self.downscale }
    }

    /// The identity of the derived texture this request builds over
    /// `source`.
    pub fn key(self, source: TextureCacheId) -> (key: DerivedKey)
        ensures
            key == self.spec_key(source),
    {
        DerivedKey { source, sigma_halves: self.sigma_halves, downscale: self.downscale }
    }
}

impl DerivedKey {
    /// The source texture this key was built over.
    pub closed spec fn spec_source(self) -> TextureCacheId {
        self.source
    }

    /// The blur this key was built from.
    pub closed spec fn spec_blur(self) -> Blur {
        Blur { sigma_halves: self.sigma_halves, downscale: self.downscale }
    }

    /// The blur this key was built from.
    pub fn blur(self) -> (blur: Blur)
        ensures
            blur == self.spec_blur(),
    {
        Blur { sigma_halves: self.sigma_halves, downscale: self.downscale }
    }

    /// The source texture this key was built over.
    pub fn source(self) -> (source: TextureCacheId)
        ensures
            source == self.spec_source(),
    {
        self.source
    }
}

/// Keys separate sources, radii and downscales: two requests share a
/// derived texture exactly when they blur the same source the same way, and
/// a key gives back the blur it was built from.
pub proof fn lemma_key_identifies(a: Blur, b: Blur, x: TextureCacheId, y: TextureCacheId)
    ensures
        (a.spec_key(x) == b.spec_key(y)) <==> (a == b && x == y),
        a.spec_key(x).spec_blur() == a,
        a.spec_key(x).spec_source() == x,
{
}

/// Whether `p` is one of the downscales the chain can run.
pub open spec fn is_chain_factor(p: int) -> bool {
    p == 1 || p == 2 || p == 4 || p == 8
}

/// `requested` held inside `1..=MAX_DOWNSCALE`.
pub open spec fn clamp_downscale(requested: u32) -> int {
    if requested < 1 {
        1
    } else if requested > 8 {
        8
    } else {
        requested as int
    }
}

/// `|a - b|`.
pub open spec fn distance(a: int, b: int) -> int {
    if a >= b {
        a - b
    } else {
        b - a
    }
}

/// The chain factor [`nearest_power_of_two`] picks for `requested`, as a
/// table.
pub open spec fn nearest_chain_factor(requested: u32) -> int {
    let c = clamp_downscale(requested);
    if c <= 2 {
        c
    } else if c <= 5 {
        4
    } else {
        8
    }
}

/// Rounds `requested` to the nearest power of two in `1..=MAX_DOWNSCALE`;
/// a tie rounds up, because the coarser of two equally distant factors is
/// the cheaper one.
pub fn nearest_power_of_two(requested: u32) -> (factor: u32)
    ensures
        factor == nearest_chain_factor(requested),
        is_chain_factor(factor as int),
        forall|p: int|
            is_chain_factor(p) ==> distance(clamp_downscale(requested), factor as int) <= distance(
                clamp_downscale(requested),
                p,
            ),
        forall|p: int|
            is_chain_factor(p) && distance(clamp_downscale(requested), p) == distance(
                clamp_downscale(requested),
                factor as int,
            ) ==> p <= factor,
{
    let clamped = if requested < 1 {
        1
    } else if requested > MAX_DOWNSCALE {
        MAX_DOWNSCALE
    } else {
        requested
    };
    let mut upper: u32 = 1;
    while upper < clamped
        invariant
            1 <= clamped <= 8,
            is_chain_factor(upper as int),
            upper <= 8,
            upper < clamped ==> upper * 2 <= 8,
            upper >= 2 ==> upper / 2 < clamped,
        decreases 8 - upper,
    {
        upper = upper * 2;
    }
    if upper == clamped {
        return clamped;
    }
    let lower = upper / 2;
    if clamped - lower >= upper - clamped {
        upper
    } else {
        lower
    }
}

} // verus!
