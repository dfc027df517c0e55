use iced_texture_cache::blur::{automatic_downscale, nearest_power_of_two, Blur, MAX_DOWNSCALE};
use iced_texture_cache::size::PixelSize;
use iced_texture_cache::texture_cache::TextureCache;

/// A blur of `sigma` source pixels, given in half pixels so it is exact.
fn blur(sigma_halves: u32, downscale: u32) -> Blur {
    Blur::from_sigma_halves(sigma_halves, downscale)
}

#[test]
fn a_requested_downscale_rounds_to_the_nearest_power_of_two() {
    let d = |requested| blur(24, requested).downscale;
    assert_eq!(d(1), 1);
    assert_eq!(d(2), 2);
    assert_eq!(d(3), 4, "a tie rounds up");
    assert_eq!(d(5), 4);
    assert_eq!(d(6), 8, "a tie rounds up");
    assert_eq!(d(7), 8);
    assert_eq!(d(8), 8);
    assert_eq!(d(64), 8, "clamped to the chain's limit");
}

#[test]
fn the_key_separates_sources_radii_and_downscales() {
    let a = TextureCache::new().id();
    let b = TextureCache::new().id();
    assert_eq!(blur(24, 4).key(a), blur(24, 4).key(a));
    assert_ne!(blur(24, 4).key(a), blur(24, 4).key(b));
    assert_ne!(blur(24, 4).key(a), blur(32, 4).key(a));
    assert_ne!(blur(24, 4).key(a), blur(24, 2).key(a));
}

#[test]
fn the_target_keeps_the_partial_block_at_the_far_edge() {
    let b = blur(48, 4);
    assert_eq!(b.target_size(PixelSize::new(300, 300)), PixelSize::new(75, 75));
    assert_eq!(b.target_size(PixelSize::new(301, 299)), PixelSize::new(76, 75));
    assert_eq!(b.target_size(PixelSize::new(1, 1)), PixelSize::new(1, 1));
    assert_eq!(b.target_size(PixelSize::new(0, 0)), PixelSize::new(1, 1));
}

#[test]
fn the_default_downscale_leaves_three_to_six_pixels_of_residual_blur() {
    let auto = |sigma_halves: u32| blur(sigma_halves, 0).downscale;
    assert_eq!(auto(4), 1, "nothing to gain below one target pixel");
    assert_eq!(auto(6), 1);
    assert_eq!(auto(14), 2);
    assert_eq!(auto(48), 8);
    assert_eq!(auto(800), 8, "clamped");

    // Every sigma above three pixels up to where the clamp binds leaves
    // the kernel between three and six target pixels.
    for halves in 7..96 {
        let b = blur(halves, 0);
        assert!(6 * b.downscale <= halves && halves < 12 * b.downscale);
    }

    let extreme = blur(800, 0);
    assert_eq!(extreme.downscale, MAX_DOWNSCALE);
    assert_eq!(extreme.sigma_halves / 2 / extreme.downscale, 50);
}

#[test]
fn the_automatic_downscale_halves_at_each_doubling() {
    assert_eq!(automatic_downscale(0), 1);
    assert_eq!(automatic_downscale(11), 1);
    assert_eq!(automatic_downscale(12), 2);
    assert_eq!(automatic_downscale(23), 2);
    assert_eq!(automatic_downscale(24), 4);
    assert_eq!(automatic_downscale(47), 4);
    assert_eq!(automatic_downscale(48), 8);
    assert_eq!(automatic_downscale(u32::MAX), 8);
}

#[test]
fn a_request_of_zero_or_past_the_chain_is_clamped() {
    assert_eq!(nearest_power_of_two(0), 1);
    assert_eq!(nearest_power_of_two(4), 4);
    assert_eq!(nearest_power_of_two(u32::MAX), 8);
}

#[test]
fn a_key_gives_back_what_it_was_built_from() {
    let source = TextureCache::new().id();
    let b = blur(33, 2);
    let key = b.key(source);
    assert_eq!(key.blur(), b);
    assert_eq!(key.source(), source);
    assert_eq!(b.sigma_halves, 33);
}
