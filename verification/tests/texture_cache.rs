use std::collections::hash_map::DefaultHasher;
use std::collections::HashSet;
use std::hash::{Hash, Hasher};
use std::sync::atomic::AtomicU64;
use std::sync::Arc;

use iced_texture_cache::texture_cache::{texture_key, TextureCache, TextureCacheId};

#[test]
fn new_cache_starts_invalidated() {
    let cache = TextureCache::new();
    assert!(cache.is_invalidated());
    assert_eq!(cache.record_count(), 0);
}

#[test]
fn take_invalidated_clears_flag_once() {
    let cache = TextureCache::new();
    assert!(cache.take_invalidated());
    assert!(!cache.take_invalidated());
    assert!(!cache.is_invalidated());
}

#[test]
fn clones_share_state_and_ids_are_unique() {
    let a = TextureCache::new();
    let b = a.clone();
    let c = TextureCache::new();
    let _ = a.take_invalidated();
    assert!(!b.is_invalidated());
    assert_eq!(a, b);
    assert_ne!(a, c);
    assert_eq!(a.id(), b.id());
}

#[test]
fn record_count_is_per_cache() {
    let a = TextureCache::new();
    let b = a.clone();
    a.note_record();
    a.note_record();
    assert_eq!(b.record_count(), 2);
    assert_eq!(TextureCache::new().record_count(), 0);
}

#[test]
fn invalidate_bumps_the_generation_every_time() {
    let cache = TextureCache::new();
    let fresh = cache.generation();
    assert!(fresh >= 1, "a new cache has already been invalidated once");
    cache.invalidate();
    assert_eq!(cache.generation(), fresh + 1);
    cache.invalidate();
    assert_eq!(cache.generation(), fresh + 2);
    let _ = cache.take_invalidated();
    assert_eq!(
        cache.generation(),
        fresh + 2,
        "consuming the flag is not a change"
    );
}

#[test]
fn id_displays_with_its_number_and_clones_share_it() {
    let a = TextureCache::new();
    let b = a.clone();
    assert_eq!(a.id(), b.id());
    assert!(a.id().to_string().starts_with("cache#"));
    let _: TextureCacheId = a.id();
}

#[test]
fn bindings_are_keyed_by_texture_identity_not_cache_id() {
    let first = Arc::new(0u8);
    let second = Arc::new(0u8);
    let first_again = Arc::clone(&first);
    assert_ne!(texture_key(&first), texture_key(&second));
    assert_eq!(texture_key(&first), texture_key(&first_again));
}

#[test]
fn an_id_is_written_in_decimal_after_its_prefix() {
    let numbered = |n: u64| TextureCache::from_counter(&AtomicU64::new(n)).id().to_string();
    assert_eq!(numbered(0), "cache#0");
    assert_eq!(numbered(7), "cache#7");
    assert_eq!(numbered(1204), "cache#1204");
    assert_eq!(numbered(u64::MAX), format!("cache#{}", u64::MAX));
}

#[test]
fn a_refused_record_is_remembered_until_the_next_one() {
    let cache = TextureCache::new();
    assert!(!cache.is_uncacheable());
    cache.note_uncacheable();
    assert!(cache.clone().is_uncacheable());
    cache.note_record();
    assert!(!cache.is_uncacheable());
    assert_eq!(cache.record_count(), 1);
}

#[test]
fn an_invalidation_is_seen_by_every_clone() {
    let a = TextureCache::default();
    let b = a.clone();
    assert!(b.take_invalidated());
    assert!(!a.is_invalidated());
    a.invalidate();
    assert!(b.is_invalidated());
    assert_eq!(a.generation(), b.generation());
}

#[test]
fn liveness_dies_when_all_handles_drop() {
    let a = TextureCache::new();
    let weak = Arc::downgrade(a.shared());
    let b = a.clone();
    drop(a);
    assert!(weak.upgrade().is_some());
    drop(b);
    assert!(weak.upgrade().is_none());
}

#[test]
fn clones_hash_alike_and_a_set_holds_one_per_cache() {
    let a = TextureCache::new();
    let b = a.clone();
    let hash = |cache: &TextureCache| {
        let mut state = DefaultHasher::new();
        cache.hash(&mut state);
        state.finish()
    };
    assert_eq!(hash(&a), hash(&b));

    let mut set = HashSet::new();
    set.insert(a.clone());
    set.insert(b);
    set.insert(TextureCache::new());
    assert_eq!(set.len(), 2);
}

#[test]
fn caches_drawn_from_a_counter_are_numbered_in_turn() {
    let next_id = AtomicU64::new(1);
    let first = TextureCache::from_counter(&next_id);
    let second = TextureCache::from_counter(&next_id);
    assert_eq!(first.id().to_string(), "cache#1");
    assert_eq!(second.id().to_string(), "cache#2");
    assert_ne!(first, second);
    assert!(first.is_invalidated());
    assert_eq!(first.generation(), 1);
    assert_eq!(first.record_count(), 0);
}
