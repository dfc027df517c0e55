use iced_texture_cache::chip::Chip;
use iced_texture_cache::renderer::Backend;
use iced_texture_cache::size::{divide_side, PixelSize};
use iced_texture_cache::warp::Corner;

#[test]
fn backends_are_displayed_by_name() {
    assert_eq!(Backend::Wgpu.name(), "wgpu");
    assert_eq!(Backend::TinySkia.name(), "tiny-skia");
    assert_eq!(Backend::TinySkia.to_string(), "tiny-skia");
    assert_eq!(Backend::Wgpu.to_string(), "wgpu");
}

#[test]
fn a_new_chip_is_staying() {
    let chip = Chip::new(42);
    assert_eq!(chip.id, 42);
    assert!(!chip.leaving);
}

#[test]
fn each_corner_mirrors_its_own_axes() {
    assert_eq!(Corner::TopLeft.flips(), (false, false));
    assert_eq!(Corner::TopRight.flips(), (true, false));
    assert_eq!(Corner::BottomLeft.flips(), (false, true));
    assert_eq!(Corner::BottomRight.flips(), (true, true));
}

#[test]
fn a_side_divides_rounding_up_and_never_below_one() {
    assert_eq!(divide_side(300, 4), 75);
    assert_eq!(divide_side(301, 4), 76);
    assert_eq!(divide_side(0, 8), 1);
    assert_eq!(divide_side(u32::MAX, 1), u32::MAX);
    assert_eq!(divide_side(u32::MAX, 8), 536_870_912);
    assert_eq!(PixelSize::new(3, 4), PixelSize { width: 3, height: 4 });
}
