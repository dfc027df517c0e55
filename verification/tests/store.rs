use std::sync::atomic::AtomicU64;
use std::sync::Arc;

use iced_texture_cache::size::PixelSize;
use iced_texture_cache::store::Entries;
use iced_texture_cache::texture_cache::{TextureCache, TextureCacheId};

const SIZE: PixelSize = PixelSize {
    width: 10,
    height: 20,
};

/// The identity numbered `n`.
fn id(n: u64) -> TextureCacheId {
    TextureCache::from_counter(&AtomicU64::new(n)).id()
}

#[test]
fn entries_are_dropped_after_the_last_handle_dies() {
    let mut entries: Entries<&str, std::sync::Weak<_>> = Entries::new();
    let cache = TextureCache::new();
    entries.keep(cache.id(), "pixels", SIZE, Arc::downgrade(cache.shared()));
    assert_eq!(entries.len(), 1);

    entries.trim(|liveness| liveness.strong_count() > 0);
    assert_eq!(entries.len(), 1, "a live handle keeps its entry");

    drop(cache);
    entries.trim(|liveness| liveness.strong_count() > 0);
    assert_eq!(entries.len(), 0);
}

#[test]
fn an_uncacheable_cache_has_no_texture_and_recovers() {
    let mut entries: Entries<u32, ()> = Entries::new();
    assert!(entries.mark_uncacheable(id(7), ()), "the first refusal is news");
    assert!(!entries.mark_uncacheable(id(7), ()), "the second is not");
    assert!(entries.is_uncacheable(id(7)));
    assert_eq!(entries.recorded(id(7)), None);
    assert_eq!(entries.take_recorded(id(7)), None);
    assert_eq!(entries.len(), 1);

    entries.keep(id(7), 99, SIZE, ());
    assert!(!entries.is_uncacheable(id(7)));
    assert_eq!(entries.recorded(id(7)), Some((&99, SIZE)));
}

#[test]
fn a_texture_taken_out_is_gone_until_it_is_kept_again() {
    let mut entries: Entries<Vec<u8>, u8> = Entries::new();
    assert_eq!(entries.recorded(id(1)), None);
    entries.keep(id(1), vec![1, 2], SIZE, 5);
    entries.keep(id(2), vec![3], PixelSize::new(1, 1), 6);
    assert_eq!(entries.take_recorded(id(1)), Some((vec![1, 2], SIZE, 5)));
    assert_eq!(entries.recorded(id(1)), None);
    assert_eq!(entries.len(), 1);
    entries.keep(id(1), vec![4], SIZE, 5);
    assert_eq!(entries.recorded(id(1)), Some((&vec![4], SIZE)));
    assert_eq!(entries.recorded(id(2)), Some((&vec![3], PixelSize::new(1, 1))));
}

#[test]
fn a_trim_keeps_exactly_the_live_entries() {
    let mut entries: Entries<u8, bool> = Entries::new();
    entries.keep(id(1), 10, SIZE, true);
    entries.keep(id(2), 20, SIZE, false);
    assert!(entries.mark_uncacheable(id(3), false));
    assert!(entries.mark_uncacheable(id(4), true));
    entries.trim(|alive| *alive);
    assert_eq!(entries.len(), 2);
    assert_eq!(entries.recorded(id(1)), Some((&10, SIZE)));
    assert_eq!(entries.recorded(id(2)), None);
    assert!(!entries.is_uncacheable(id(3)));
    assert!(entries.is_uncacheable(id(4)));
}

#[test]
fn the_weak_handle_is_kept_whatever_became_of_the_record() {
    let mut entries: Entries<u8, &str> = Entries::new();
    assert_eq!(entries.liveness_of(id(1)), None);
    entries.keep(id(1), 0, SIZE, "first");
    assert!(entries.mark_uncacheable(id(2), "second"));
    assert_eq!(entries.liveness_of(id(1)), Some(&"first"));
    assert_eq!(entries.liveness_of(id(2)), Some(&"second"));
}
