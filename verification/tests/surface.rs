use iced_texture_cache::surface::{choose_alpha_mode, choose_format, AlphaMode, FormatTraits, WebFormat};

const BGRA8_UNORM_SRGB: FormatTraits = FormatTraits { usable: true, srgb: true, web: None };
const RGBA8_UNORM_SRGB: FormatTraits = FormatTraits { usable: true, srgb: true, web: None };
const RGBA16_FLOAT: FormatTraits = FormatTraits { usable: true, srgb: false, web: None };
const RGB10A2_UNORM: FormatTraits =
    FormatTraits { usable: true, srgb: false, web: Some(WebFormat::Rgb10a2Unorm) };
const BGRA8_UNORM: FormatTraits =
    FormatTraits { usable: true, srgb: false, web: Some(WebFormat::Bgra8Unorm) };
const RGBA8_UNORM: FormatTraits =
    FormatTraits { usable: true, srgb: false, web: Some(WebFormat::Rgba8Unorm) };
/// Needs a device feature.
const RGBA16_UNORM: FormatTraits = FormatTraits { usable: false, srgb: false, web: None };
const RGB10A2_UINT: FormatTraits = FormatTraits { usable: true, srgb: false, web: None };

fn nvidia() -> Vec<FormatTraits> {
    vec![BGRA8_UNORM_SRGB, RGBA8_UNORM_SRGB, RGBA16_FLOAT, RGB10A2_UNORM, BGRA8_UNORM, RGBA8_UNORM]
}

fn intel() -> Vec<FormatTraits> {
    vec![
        BGRA8_UNORM_SRGB,
        RGBA8_UNORM_SRGB,
        RGBA16_UNORM,
        RGB10A2_UNORM,
        BGRA8_UNORM,
        RGBA8_UNORM,
        RGBA16_FLOAT,
    ]
}

#[test]
fn web_colours_never_land_in_a_float_format() {
    assert_eq!(choose_format(&nvidia(), false), Some(4));
    assert_eq!(choose_format(&intel(), false), Some(4));
}

#[test]
fn gamma_correction_takes_an_srgb_format() {
    assert_eq!(choose_format(&nvidia(), true), Some(0));
}

#[test]
fn ten_bit_unorm_is_the_third_choice() {
    let only_ten_bit = vec![BGRA8_UNORM_SRGB, RGBA16_FLOAT, RGB10A2_UNORM];
    assert_eq!(choose_format(&only_ten_bit, false), Some(2));
}

#[test]
fn unlisted_integer_formats_are_not_picked_over_the_first_usable_one() {
    let odd = vec![BGRA8_UNORM_SRGB, RGB10A2_UINT];
    assert_eq!(choose_format(&odd, false), Some(0));
}

#[test]
fn feature_gated_formats_are_skipped_even_as_a_last_resort() {
    let gated_first = vec![RGBA16_UNORM, BGRA8_UNORM_SRGB];
    assert_eq!(choose_format(&gated_first, false), Some(1));
    assert_eq!(choose_format(&gated_first, true), Some(1));
}

#[test]
fn last_resort_is_the_adapters_first_usable_format() {
    let only_float_and_srgb = vec![BGRA8_UNORM_SRGB, RGBA16_FLOAT];
    assert_eq!(choose_format(&only_float_and_srgb, false), Some(0));
    let no_srgb = vec![BGRA8_UNORM];
    assert_eq!(choose_format(&no_srgb, true), Some(0));
    assert_eq!(choose_format(&vec![], false), None);
}

#[test]
fn eight_bit_rgba_beats_ten_bit_and_an_unusable_list_falls_back_to_its_head() {
    let rgba_then_ten_bit = vec![RGB10A2_UNORM, RGBA8_UNORM];
    assert_eq!(choose_format(&rgba_then_ten_bit, false), Some(1));
    let nothing_usable = vec![RGBA16_UNORM, RGBA16_UNORM];
    assert_eq!(choose_format(&nothing_usable, false), Some(0));
    assert_eq!(choose_format(&nothing_usable, true), Some(0));
}

#[test]
fn post_multiplied_alpha_is_preferred_then_premultiplied() {
    assert_eq!(choose_alpha_mode(true, true), AlphaMode::PostMultiplied);
    assert_eq!(choose_alpha_mode(true, false), AlphaMode::PostMultiplied);
    assert_eq!(choose_alpha_mode(false, true), AlphaMode::PreMultiplied);
    assert_eq!(choose_alpha_mode(false, false), AlphaMode::Auto);
}
