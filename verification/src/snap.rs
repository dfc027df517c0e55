//! Whether a composited texture is snapped to the device-pixel grid.

use vstd::prelude::*;

use crate::filter::FilterQuality;

verus! {

/// Whether the composited texture is snapped to the device-pixel grid.
#[derive(Debug, Clone, Copy, PartialEq, Eq, Structural)]
#[non_exhaustive]
pub enum PixelSnap {
    /// Snap only a pure translation that is at rest.
    Auto,
    /// Always snap the composited origin to the device grid.
    Always,
    /// Never snap.
    Never,
    /// Snap the discrete part of the origin and carry the smooth part on top
    /// of it untouched. The default.
    LayoutOnly,
}

impl Default for PixelSnap {
    fn default() -> (mode: Self)
        ensures
            mode == PixelSnap::LayoutOnly,
    {
        PixelSnap::LayoutOnly
    }
}

/// Whether the composited texel grid is snapped to the device grid this
/// frame.
///
/// [`FilterQuality::Snap`] wins over every [`PixelSnap`] policy: that tier
/// has nothing to reconstruct only because it sits on the grid.
pub fn snap_decision(
    filter: FilterQuality,
    mode: PixelSnap,
    has_live_scale: bool,
    translation_only: bool,
    at_rest: bool,
) -> (snap: bool)
    ensures
        snap == (filter == FilterQuality::Snap || match mode {
            PixelSnap::Always => true,
            PixelSnap::Never | PixelSnap::LayoutOnly => false,
            PixelSnap::Auto => !has_live_scale && translation_only && at_rest,
        }),
{
    if filter.snaps() {
        return true;
    }
    match mode {
        PixelSnap::Always => true,
        PixelSnap::Never | PixelSnap::LayoutOnly => false,
        PixelSnap::Auto => !has_live_scale && translation_only && at_rest,
    }
}

/// How a sliding page's horizontal origin meets the device grid.
#[derive(Debug, Clone, Copy, PartialEq, Eq, Structural)]
pub enum AxisSnap {
    /// The whole origin is rounded to the grid.
    Whole,
    /// The pager's own origin is rounded and the slide rides on top of it
    /// unrounded.
    Anchored,
    /// Left alone.
    Free,
}

/// Which parts of a page's origin a pager snaps: the horizontal axis, which
/// the slide moves, and whether the vertical one is rounded.
#[derive(Debug, Clone, Copy, PartialEq, Eq, Structural)]
pub struct PageSnap {
    /// The axis the slide moves.
    pub x: AxisSnap,
    /// Whether the vertical origin is rounded to the grid.
    pub y: bool,
}

/// How a pager places a page on the device grid.
///
/// [`FilterQuality::Snap`] and [`PixelSnap::Always`] round the whole
/// origin and [`PixelSnap::Never`] leaves it alone. The other policies
/// round the vertical axis, which the slide does not move, and differ on
/// the horizontal one: [`PixelSnap::LayoutOnly`] rounds the pager's origin
/// and lets the slide ride on top, [`PixelSnap::Auto`] leaves it free.
pub open spec fn spec_page_snap(filter: FilterQuality, mode: PixelSnap) -> PageSnap {
    if filter == FilterQuality::Snap || mode == PixelSnap::Always {
        PageSnap { x: AxisSnap::Whole, y: true }
    } else if mode == PixelSnap::Never {
        PageSnap { x: AxisSnap::Free, y: false }
    } else if mode == PixelSnap::LayoutOnly {
        PageSnap { x: AxisSnap::Anchored, y: true }
    } else {
        PageSnap { x: AxisSnap::Free, y: true }
    }
}

/// See [`spec_page_snap`].
pub fn page_snap(filter: FilterQuality, mode: PixelSnap) -> (snap: PageSnap)
    ensures
        snap == spec_page_snap(filter, mode),
{
    if filter.snaps() {
        return PageSnap { x: AxisSnap::Whole, y: true };
    }
    match mode {
        PixelSnap::Always => PageSnap { x: AxisSnap::Whole, y: true },
        PixelSnap::Never => PageSnap { x: AxisSnap::Free, y: false },
        PixelSnap::LayoutOnly => PageSnap { x: AxisSnap::Anchored, y: true },
        PixelSnap::Auto => PageSnap { x: AxisSnap::Free, y: true },
    }
}

/// Every snapping policy puts a page's vertical axis on the device grid,
/// the snap tier snaps the whole page whatever the policy says, and only
/// [`PixelSnap::Never`] on a filtering tier leaves both axes alone.
pub proof fn lemma_page_snap_axes(filter: FilterQuality, mode: PixelSnap)
    ensures
        mode != PixelSnap::Never ==> spec_page_snap(filter, mode).y,
        filter == FilterQuality::Snap ==> spec_page_snap(filter, mode) == (PageSnap {
            x: AxisSnap::Whole,
            y: true,
        }),
        (spec_page_snap(filter, mode).x == AxisSnap::Free && !spec_page_snap(filter, mode).y) <==> (
        filter != FilterQuality::Snap && mode == PixelSnap::Never),
{
}

} // verus!
