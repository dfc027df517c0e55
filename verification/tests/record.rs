use std::sync::atomic::AtomicU64;

use iced_texture_cache::blur::DERIVED_IDLE_FRAMES;
use iced_texture_cache::pixels::pixmap_to_rgba;
use iced_texture_cache::record::{
    age_idle, clamp_size, fits, fits_cpu, needs_blur, needs_record, next_epoch, record_decision,
    IdlePool,
    Pool, Record, CPU_MAX_DIMENSION,
};
use iced_texture_cache::size::PixelSize;

const SIZE: PixelSize = PixelSize {
    width: 10,
    height: 20,
};

#[test]
fn new_entry_always_records() {
    assert!(needs_record(None, SIZE, false));
}

#[test]
fn unchanged_and_valid_skips() {
    assert!(!needs_record(Some((SIZE, true)), SIZE, false));
}

#[test]
fn invalidated_records() {
    assert!(needs_record(Some((SIZE, true)), SIZE, true));
}

#[test]
fn size_or_scale_change_records() {
    assert!(needs_record(Some((SIZE, true)), PixelSize::new(11, 20), false));
    assert!(needs_record(Some((SIZE, false)), SIZE, false));
}

#[test]
fn oversized_requests_do_not_fit() {
    assert!(!fits(PixelSize::new(10_000, 20), 8192));
    assert!(fits(PixelSize::new(8192, 8192), 8192));
    assert!(!fits(PixelSize::new(1, 8193), 8192));
}

#[test]
fn software_sizes_are_capped_per_side_and_in_bytes() {
    assert!(fits_cpu(PixelSize::new(CPU_MAX_DIMENSION, 1)));
    assert!(!fits_cpu(PixelSize::new(CPU_MAX_DIMENSION + 1, 1)));
    assert!(fits_cpu(PixelSize::new(8192, 8192)));
    assert!(!fits_cpu(PixelSize::new(CPU_MAX_DIMENSION, CPU_MAX_DIMENSION)));
}

#[test]
fn zero_sizes_are_clamped_to_one_pixel() {
    assert_eq!(clamp_size(PixelSize::new(0, 0)), PixelSize::new(1, 1));
    assert_eq!(clamp_size(PixelSize::new(0, 5)), PixelSize::new(1, 5));
    assert_eq!(clamp_size(SIZE), SIZE);
}

#[test]
fn pixmap_bytes_are_swizzled_and_demultiplied() {
    let out = pixmap_to_rgba(&[0, 0, 128, 128, 0, 0, 0, 0, 10, 20, 30, 255]);
    assert_eq!(&out[..4], &[255, 0, 0, 128]);
    assert_eq!(&out[4..8], &[0, 0, 0, 0]);
    assert_eq!(&out[8..], &[30, 20, 10, 255]);
}

#[test]
fn demultiplying_rounds_and_saturates() {
    // 50/128 of 255 is 99.6: rounded to 100. A colour above its alpha
    // (impossible in a valid pixmap) saturates rather than wrapping.
    let out = pixmap_to_rgba(&[50, 0, 0, 128, 0, 0, 200, 100]);
    assert_eq!(&out[..4], &[0, 0, 100, 128]);
    assert_eq!(&out[4..], &[255, 0, 0, 100]);
}

#[test]
fn opaque_pixels_are_only_swizzled_and_nothing_is_nothing() {
    let out = pixmap_to_rgba(&[1, 2, 3, 255, 7, 8, 9, 0]);
    assert_eq!(out, vec![3, 2, 1, 255, 0, 0, 0, 0]);
    assert!(pixmap_to_rgba(&[]).is_empty());
}

#[test]
fn a_record_that_does_not_fit_is_uncacheable_whatever_else_holds() {
    assert_eq!(record_decision(false, None, SIZE, true), Record::Uncacheable);
    assert_eq!(
        record_decision(false, Some((SIZE, true)), SIZE, false),
        Record::Uncacheable
    );
    assert_eq!(record_decision(true, None, SIZE, false), Record::Fresh);
    assert_eq!(record_decision(true, Some((SIZE, true)), SIZE, false), Record::Reused);
    assert_eq!(record_decision(true, Some((SIZE, true)), SIZE, true), Record::Fresh);
    assert_eq!(
        record_decision(true, Some((PixelSize::new(1, 1), true)), SIZE, false),
        Record::Fresh
    );
}

#[test]
fn something_idle_is_released_after_its_window_or_with_its_owner() {
    assert_eq!(age_idle(0, true), (1, true));
    assert_eq!(age_idle(DERIVED_IDLE_FRAMES - 1, true), (DERIVED_IDLE_FRAMES, true));
    assert_eq!(age_idle(DERIVED_IDLE_FRAMES, true), (DERIVED_IDLE_FRAMES + 1, false));
    assert_eq!(age_idle(0, false), (1, false));
}

#[test]
fn nested_renderers_are_pooled_per_nesting_depth() {
    let mut pool: Pool<&str> = Pool::new();
    assert_eq!(pool.len(), 0);
    assert_eq!(pool.take(), None);
    pool.return_renderer("outer");
    pool.return_renderer("inner");
    assert_eq!(pool.len(), 2);
    assert_eq!(pool.take(), Some("inner"));
    assert_eq!(pool.take(), Some("outer"));
    assert_eq!(pool.take(), None);
}

#[test]
fn an_idle_pool_rents_the_last_thing_of_the_size_asked_for() {
    let mut pool: IdlePool<u32> = IdlePool::new();
    let small = PixelSize::new(4, 4);
    let large = PixelSize::new(8, 8);
    assert_eq!(pool.rent(small), None);
    pool.give_back(small, 1);
    pool.give_back(large, 2);
    pool.give_back(small, 3);
    assert_eq!(pool.rent(small), Some(3));
    assert_eq!(pool.rent(small), Some(1));
    assert_eq!(pool.rent(small), None);
    assert_eq!(pool.rent(large), Some(2));
}

#[test]
fn a_target_nobody_rents_is_released_after_its_idle_window() {
    let mut pool: IdlePool<u32> = IdlePool::new();
    let size = PixelSize::new(4, 4);
    pool.give_back(size, 7);
    for _ in 0..DERIVED_IDLE_FRAMES {
        pool.age();
    }
    assert_eq!(pool.rent(size), Some(7), "still within its idle window");
    pool.give_back(size, 7);
    for _ in 0..=DERIVED_IDLE_FRAMES {
        pool.age();
    }
    assert_eq!(pool.rent(size), None);
}

#[test]
fn epochs_count_up_from_the_counter() {
    let counter = AtomicU64::new(1);
    assert_eq!(next_epoch(&counter), 1);
    assert_eq!(next_epoch(&counter), 2);
    assert_eq!(next_epoch(&counter), 3);
}

#[test]
fn a_settled_frame_blurs_nothing_and_a_new_epoch_blurs_once() {
    assert!(needs_blur(None, 4), "nothing built yet");
    assert!(!needs_blur(Some(4), 4), "moving the glass is free");
    assert!(needs_blur(Some(4), 5), "a new source epoch re-blurs once");
}
