//! The reconstruction filter used when a cached texture is composited under
//! a sub-pixel transform, and which tier wins when several are asked for.

use std::sync::atomic::{AtomicU8, Ordering};
use vstd::prelude::*;

verus! {

/// How a cached texture is reconstructed when it lands between device
/// pixels.
#[derive(Debug, Clone, Copy, PartialEq, Eq, Structural)]
#[non_exhaustive]
pub enum FilterQuality {
    /// Catmull-Rom bicubic: the sharpest tier.
    CatmullRom,
    /// A single hardware-bilinear tap: the cheapest tier that still glides.
    Bilinear,
    /// No reconstruction: the composite is snapped to whole device pixels.
    Snap,
}

impl Default for FilterQuality {
    fn default() -> (quality: Self)
        ensures
            quality == FilterQuality::Bilinear,
    {
        FilterQuality::Bilinear
    }
}

/// The tag stored for "no override": every renderer uses its own tier.
pub const UNSET: u8 = 0;

/// The tag stored for `quality`.
pub open spec fn spec_tag(quality: FilterQuality) -> u8 {
    match quality {
        FilterQuality::CatmullRom => 1,
        FilterQuality::Bilinear => 2,
        FilterQuality::Snap => 3,
    }
}

/// The tier a stored tag stands for; `None` for [`UNSET`] and for any tag
/// no tier is stored as.
pub open spec fn spec_from_tag(tag: u8) -> Option<FilterQuality> {
    if tag == 1 {
        Some(FilterQuality::CatmullRom)
    } else if tag == 2 {
        Some(FilterQuality::Bilinear)
    } else if tag == 3 {
        Some(FilterQuality::Snap)
    } else {
        None
    }
}

impl FilterQuality {
    /// Whether this tier forces the composite onto the device-pixel grid,
    /// whatever the pixel-snap policy asks for.
    pub fn snaps(self) -> (snaps: bool)
        ensures
            snaps == (self == FilterQuality::Snap),
    {
        match self {
            FilterQuality::Snap => true,
            _ => false,
        }
    }

    /// The discriminant stored for an app-wide override. Never [`UNSET`].
    pub fn tag(self) -> (tag: u8)
        ensures
            tag == spec_tag(self),
    {
        match self {
            FilterQuality::CatmullRom => 1,
            FilterQuality::Bilinear => 2,
            FilterQuality::Snap => 3,
        }
    }

    /// The inverse of [`FilterQuality::tag`]; `None` for [`UNSET`] and for a
    /// tag that no tier is stored as.
    pub fn from_tag(tag: u8) -> (quality: Option<Self>)
        ensures
            quality == spec_from_tag(tag),
    {
        match tag {
            1 => Some(FilterQuality::CatmullRom),
            2 => Some(FilterQuality::Bilinear),
            3 => Some(FilterQuality::Snap),
            _ => None,
        }
    }
}

/// Every tier survives being stored as a tag and read back, no tier is
/// stored as [`UNSET`], and two tiers never share a tag.
pub proof fn lemma_tag_round_trip(quality: FilterQuality, other: FilterQuality)
    ensures
        spec_from_tag(spec_tag(quality)) == Some(quality),
        spec_tag(quality) != UNSET,
        spec_from_tag(UNSET) == None::<FilterQuality>,
        spec_tag(quality) == spec_tag(other) ==> quality == other,
{
}

/// The kind of graphics adapter a device runs on.
#[derive(Debug, Clone, Copy, PartialEq, Eq, Structural)]
pub enum DeviceKind {
    /// Neither of the others.
    Other,
    /// A GPU on the same die as the CPU.
    IntegratedGpu,
    /// A GPU of its own.
    DiscreteGpu,
    /// A GPU exposed by a virtual machine.
    VirtualGpu,
    /// A software rasteriser on the CPU.
    Cpu,
}

/// The tier a device gets when no override is set: a discrete GPU takes
/// [`FilterQuality::CatmullRom`], an integrated one
/// [`FilterQuality::Bilinear`], and anything else [`FilterQuality::Snap`].
pub fn auto(device: DeviceKind) -> (quality: FilterQuality)
    ensures
        device == DeviceKind::DiscreteGpu ==> quality == FilterQuality::CatmullRom,
        device == DeviceKind::IntegratedGpu ==> quality == FilterQuality::Bilinear,
        device != DeviceKind::DiscreteGpu && device != DeviceKind::IntegratedGpu ==> quality
            == FilterQuality::Snap,
{
    match device {
        DeviceKind::DiscreteGpu => FilterQuality::CatmullRom,
        DeviceKind::IntegratedGpu => FilterQuality::Bilinear,
        _ => FilterQuality::Snap,
    }
}

/// The tier a composite is drawn with: the widget's own choice if it made
/// one, otherwise the app-wide override if one is set, otherwise the tier
/// chosen for the device.
pub fn effective_filter(
    widget: Option<FilterQuality>,
    app_override: Option<FilterQuality>,
    automatic: FilterQuality,
) -> (quality: FilterQuality)
    ensures
        quality == match widget {
            Some(chosen) => chosen,
            None => match app_override {
                Some(forced) => forced,
                None => automatic,
            },
        },
{
    match widget {
        Some(chosen) => chosen,
        None => match app_override {
            Some(forced) => forced,
            None => automatic,
        },
    }
}

/// The tag [`set_filter_quality`] stores for `quality`.
pub open spec fn override_tag(quality: Option<FilterQuality>) -> u8 {
    match quality {
        Some(q) => spec_tag(q),
        None => UNSET,
    }
}

/// The tag to store for an app-wide override of `quality`; [`UNSET`] for
/// `None`.
pub fn tag_of_override(quality: Option<FilterQuality>) -> (tag: u8)
    ensures
        tag == override_tag(quality),
        spec_from_tag(tag) == quality,
{
    match quality {
        Some(q) => q.tag(),
        None => UNSET,
    }
}

/// Forces `quality` for every cached composite that reads `storage`;
/// `None` gives the automatic per-device choice back. The application keeps
/// `storage` for the whole process.
pub fn set_filter_quality(storage: &AtomicU8, quality: Option<FilterQuality>) {
    let tag = tag_of_override(quality);
    storage.store(tag, Ordering::Relaxed);
}

/// The override stored in `storage` by [`set_filter_quality`], if any.
///
/// Any thread may store into `storage`, so what is read depends on who
/// stored last; whatever it is, it is read back through
/// [`FilterQuality::from_tag`].
pub fn filter_quality(storage: &AtomicU8) -> Option<FilterQuality> {
    let tag = storage.load(Ordering::Relaxed);
    FilterQuality::from_tag(tag)
}

} // verus!
