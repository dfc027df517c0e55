//! Which swapchain format a window gets.

use vstd::prelude::*;

verus! {

/// The integer surface formats that store sRGB-encoded "web colours"
/// unchanged. Float formats hold linear values and would encode every
/// mid-tone twice, so they are not among them.
#[derive(Debug, Clone, Copy, PartialEq, Eq, Structural)]
pub enum WebFormat {
    Bgra8Unorm,
    Rgba8Unorm,
    Rgb10a2Unorm,
}

impl WebFormat {
    /// Preference among the web-colour formats, 0 first: 8-bit first, so
    /// the bytes are exactly the bytes that were computed.
    pub open spec fn spec_rank(self) -> u8 {
        match self {
            WebFormat::Bgra8Unorm => 0,
            WebFormat::Rgba8Unorm => 1,
            WebFormat::Rgb10a2Unorm => 2,
        }
    }

    /// See [`WebFormat::spec_rank`].
    #[verifier::when_used_as_spec(spec_rank)]
    pub fn rank(self) -> (rank: u8)
        ensures
            rank == self.spec_rank(),
    {
        match self {
            WebFormat::Bgra8Unorm => 0,
            WebFormat::Rgba8Unorm => 1,
            WebFormat::Rgb10a2Unorm => 2,
        }
    }
}

/// What the format choice needs to know about one surface format.
#[derive(Debug, Clone, Copy, PartialEq, Eq, Structural)]
pub struct FormatTraits {
    /// The format needs no optional device feature.
    pub usable: bool,
    /// The format stores sRGB-encoded values and decodes them on read.
    pub srgb: bool,
    /// The web-colour format it is, if it is one.
    pub web: Option<WebFormat>,
}

/// How many formats the web-colour preference list holds.
pub const WEB_COLOR_FORMAT_COUNT: u8 = 3;

/// The first index at or after `from` whose format satisfies `wanted`.
pub open spec fn first_where(formats: Seq<FormatTraits>, wanted: spec_fn(FormatTraits) -> bool, from: int) -> Option<int>
    decreases formats.len() - from,
{
    if from >= formats.len() || from < 0 {
        None
    } else if wanted(formats[from]) {
        Some(from)
    } else {
        first_where(formats, wanted, from + 1)
    }
}

/// A usable format of web-colour rank `rank`.
pub open spec fn usable_of_rank(rank: u8) -> spec_fn(FormatTraits) -> bool {
    |f: FormatTraits|
        f.usable && match f.web {
            Some(web) => web.spec_rank() == rank,
            None => false,
        }
}

/// The first usable format, else the first format at all.
pub open spec fn fallback_format(formats: Seq<FormatTraits>) -> Option<int> {
    match first_where(formats, |f: FormatTraits| f.usable, 0) {
        Some(i) => Some(i),
        None => if formats.len() > 0 {
            Some(0)
        } else {
            None
        },
    }
}

/// The format chosen from `formats`, by index.
///
/// With gamma correction the first usable sRGB format; without it the first
/// usable format of the best web-colour rank any usable format has. Failing
/// those, the first usable format, and failing that the first format.
pub open spec fn chosen_format(formats: Seq<FormatTraits>, gamma_correction: bool) -> Option<int> {
    if gamma_correction {
        match first_where(formats, |f: FormatTraits| f.usable && f.srgb, 0) {
            Some(i) => Some(i),
            None => fallback_format(formats),
        }
    } else {
        match first_where(formats, usable_of_rank(0), 0) {
            Some(i) => Some(i),
            None => match first_where(formats, usable_of_rank(1), 0) {
                Some(i) => Some(i),
                None => match first_where(formats, usable_of_rank(2), 0) {
                    Some(i) => Some(i),
                    None => fallback_format(formats),
                },
            },
        }
    }
}

/// The first index whose format satisfies the test picked by `test`: 0 for
/// usable and sRGB, 1 for usable, 2 + r for usable of web rank r.
fn find_first(formats: &Vec<FormatTraits>, test: u8) -> (found: Option<usize>)
    requires
        test <= 4,
    ensures
        test == 0 ==> found == match first_where(formats@, |f: FormatTraits| f.usable && f.srgb, 0) {
            Some(i) => Some(i as usize),
            None => None,
        },
        test == 1 ==> found == match first_where(formats@, |f: FormatTraits| f.usable, 0) {
            Some(i) => Some(i as usize),
            None => None,
        },
        test >= 2 ==> found == match first_where(formats@, usable_of_rank((test - 2) as u8), 0) {
            Some(i) => Some(i as usize),
            None => None,
        },
{
    let ghost wanted: spec_fn(FormatTraits) -> bool = if test == 0 {
        |f: FormatTraits| f.usable && f.srgb
    } else if test == 1 {
        |f: FormatTraits| f.usable
    } else {
        usable_of_rank((test - 2) as u8)
    };
    let mut i: usize = 0;
    while i < formats.len()
        invariant
            i <= formats@.len(),
            test <= 4,
            wanted == (if test == 0 {
                |f: FormatTraits| f.usable && f.srgb
            } else if test == 1 {
                |f: FormatTraits| f.usable
            } else {
                usable_of_rank((test - 2) as u8)
            }),
            first_where(formats@, wanted, 0) == first_where(formats@, wanted, i as int),
        decreases formats@.len() - i,
    {
        let f = formats[i];
        let hit = if test == 0 {
            f.usable && f.srgb
        } else if test == 1 {
            f.usable
        } else {
            f.usable && match f.web {
                Some(web) => web.rank() == test - 2,
                None => false,
            }
        };
        assert(hit == wanted(f));
        if hit {
            return Some(i);
        }
        i = i + 1;
    }
    None
}

/// Picks the swapchain format for the colour convention: see
/// [`chosen_format`].
pub fn choose_format(formats: &Vec<FormatTraits>, gamma_correction: bool) -> (choice: Option<usize>)
    ensures
        choice == match chosen_format(formats@, gamma_correction) {
            Some(i) => Some(i as usize),
            None => None,
        },
{
    let fallback = match find_first(formats, 1) {
        Some(i) => Some(i),
        None => if formats.len() > 0 {
            Some(0)
        } else {
            None
        },
    };
    if gamma_correction {
        return match find_first(formats, 0) {
            Some(i) => Some(i),
            None => fallback,
        };
    }
    let mut rank: u8 = 0;
    while rank < WEB_COLOR_FORMAT_COUNT
        invariant
            rank <= 3,
            fallback == match fallback_format(formats@) {
                Some(i) => Some(i as usize),
                None => None,
            },
            !gamma_correction,
            forall|r: u8| r < rank ==> first_where(formats@, usable_of_rank(r), 0).is_none(),
        decreases 3 - rank,
    {
        if let Some(i) = find_first(formats, rank + 2) {
            return Some(i);
        }
        rank = rank + 1;
    }
    fallback
}

/// What [`first_where`] finds: the first index at or after `from` that
/// satisfies `wanted`, or nothing when none does.
proof fn lemma_first_where(formats: Seq<FormatTraits>, wanted: spec_fn(FormatTraits) -> bool, from: int)
    requires
        0 <= from,
    ensures
        match first_where(formats, wanted, from) {
            Some(i) => from <= i < formats.len() && wanted(formats[i]) && forall|j: int|
                from <= j < i ==> !wanted(#[trigger] formats[j]),
            None => forall|j: int| from <= j < formats.len() ==> !wanted(#[trigger] formats[j]),
        },
    decreases formats.len() - from,
{
    if from < formats.len() && !wanted(formats[from]) {
        lemma_first_where(formats, wanted, from + 1);
    }
}

/// Whether format `i` is usable and stores web colours.
pub open spec fn usable_web(f: FormatTraits) -> bool {
    f.usable && f.web is Some
}

/// The preference rank of a web-colour format; past every rank otherwise.
pub open spec fn rank_of(f: FormatTraits) -> int {
    match f.web {
        Some(web) => web.spec_rank() as int,
        None => 3,
    }
}

/// The fallback when no format of the wanted kind is offered: the first
/// usable format, else the first format, else none.
pub open spec fn is_fallback(formats: Seq<FormatTraits>, choice: Option<int>) -> bool {
    if exists|j: int| 0 <= j < formats.len() && (#[trigger] formats[j]).usable {
        choice matches Some(i) && 0 <= i < formats.len() && formats[i].usable && forall|j: int|
            0 <= j < i ==> !(#[trigger] formats[j]).usable
    } else if formats.len() > 0 {
        choice == Some(0int)
    } else {
        choice.is_none()
    }
}

/// The format choice, stated by what is chosen. With gamma correction:
/// the first usable sRGB format whenever there is one. Without it: a usable
/// web-colour format of the best rank any usable format has, the first of
/// that rank, whenever there is one. Otherwise the fallback.
pub proof fn lemma_format_choice(formats: Seq<FormatTraits>)
    ensures
        (exists|j: int| 0 <= j < formats.len() && (#[trigger] formats[j]).usable && formats[j].srgb)
            ==> (chosen_format(formats, true) matches Some(i) && 0 <= i < formats.len()
            && formats[i].usable && formats[i].srgb && forall|j: int|
            0 <= j < i ==> !((#[trigger] formats[j]).usable && formats[j].srgb)),
        !(exists|j: int| 0 <= j < formats.len() && (#[trigger] formats[j]).usable && formats[j].srgb)
            ==> is_fallback(formats, chosen_format(formats, true)),
        (exists|j: int| 0 <= j < formats.len() && usable_web(#[trigger] formats[j])) ==> (chosen_format(
            formats,
            false,
        ) matches Some(i) && 0 <= i < formats.len() && usable_web(formats[i]) && (forall|j: int|
            0 <= j < formats.len() && usable_web(#[trigger] formats[j]) ==> rank_of(formats[i])
                <= rank_of(formats[j])) && forall|j: int|
            0 <= j < i && usable_web(#[trigger] formats[j]) ==> rank_of(formats[j]) != rank_of(
                formats[i],
            )),
        !(exists|j: int| 0 <= j < formats.len() && usable_web(#[trigger] formats[j])) ==> is_fallback(
            formats,
            chosen_format(formats, false),
        ),
{
    let srgb = |f: FormatTraits| f.usable && f.srgb;
    let usable = |f: FormatTraits| f.usable;
    lemma_first_where(formats, srgb, 0);
    lemma_first_where(formats, usable, 0);
    lemma_first_where(formats, usable_of_rank(0), 0);
    lemma_first_where(formats, usable_of_rank(1), 0);
    lemma_first_where(formats, usable_of_rank(2), 0);
    assert forall|j: int| 0 <= j < formats.len() && usable_web(#[trigger] formats[j]) implies (
    usable_of_rank(0)(formats[j]) || usable_of_rank(1)(formats[j]) || usable_of_rank(2)(formats[j]))
        && rank_of(formats[j]) == (if usable_of_rank(0)(formats[j]) {
        0int
    } else if usable_of_rank(1)(formats[j]) {
        1int
    } else {
        2int
    }) by {
        let web = formats[j].web.unwrap();
        assert(web.spec_rank() < 3);
    }
    if exists|j: int| 0 <= j < formats.len() && usable_web(#[trigger] formats[j]) {
        let j = choose|j: int| 0 <= j < formats.len() && usable_web(#[trigger] formats[j]);
        assert(usable_of_rank(0)(formats[j]) || usable_of_rank(1)(formats[j]) || usable_of_rank(2)(
            formats[j],
        ));
    }
    if !(exists|j: int| 0 <= j < formats.len() && usable_web(#[trigger] formats[j])) {
        assert forall|j: int| 0 <= j < formats.len() implies !usable_of_rank(0)(#[trigger] formats[j])
            && !usable_of_rank(1)(formats[j]) && !usable_of_rank(2)(formats[j]) by {
            assert(!usable_web(formats[j]));
        }
    }
}

/// How a window's contents are blended with what lies behind it.
#[derive(Debug, Clone, Copy, PartialEq, Eq, Structural)]
pub enum AlphaMode {
    /// Colours are not premultiplied by alpha.
    PostMultiplied,
    /// Colours are premultiplied by alpha.
    PreMultiplied,
    /// Whatever the platform does.
    Auto,
}

/// The alpha mode a window gets from what the surface offers:
/// post-multiplied first (as the stock renderer does, so transparent windows
/// look the same), then premultiplied, then the platform's own.
pub fn choose_alpha_mode(offers_post_multiplied: bool, offers_premultiplied: bool) -> (mode: AlphaMode)
    ensures
        mode == (if offers_post_multiplied {
            AlphaMode::PostMultiplied
        } else if offers_premultiplied {
            AlphaMode::PreMultiplied
        } else {
            AlphaMode::Auto
        }),
{
    if offers_post_multiplied {
        AlphaMode::PostMultiplied
    } else if offers_premultiplied {
        AlphaMode::PreMultiplied
    } else {
        AlphaMode::Auto
    }
}

} // verus!
