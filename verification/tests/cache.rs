use niv::cache::{Cache, GetSize};
use niv::images::RawImage;

fn k(name: &str) -> String {
    name.to_string()
}

/// An image that occupies `bytes` bytes; its first byte is `mark`.
fn image(bytes: usize, mark: u8) -> RawImage {
    assert_eq!(bytes % 4, 0);
    let mut pixels = vec![0u8; bytes];
    if bytes > 0 {
        pixels[0] = mark;
    }
    RawImage::new((bytes / 4) as u32, 1, pixels).unwrap()
}

fn mark_of(cache: &Cache<RawImage>, name: &str) -> Option<u8> {
    cache.find(&k(name)).map(|i| i.pixels()[0])
}

#[test]
fn new_cache_is_empty() {
    let cache: Cache<RawImage> = Cache::new(100);
    assert_eq!(cache.size(), 0);
    assert!(cache.find(&k("a")).is_none());
}

#[test]
fn push_adds_the_size_of_the_value() {
    let mut cache: Cache<RawImage> = Cache::new(100);
    cache.push(k("a"), image(12, 1));
    assert_eq!(cache.size(), 12);
    cache.push(k("b"), image(40, 2));
    assert_eq!(cache.size(), 52);
    assert_eq!(mark_of(&cache, "a"), Some(1));
    assert_eq!(mark_of(&cache, "b"), Some(2));
    assert_eq!(cache.find(&k("b")).unwrap().get_size(), 40);
}

#[test]
fn fifo_eviction_drops_the_oldest_first() {
    let mut cache: Cache<RawImage> = Cache::new(20);
    cache.push(k("a"), image(8, 1));
    cache.push(k("b"), image(8, 2));
    cache.push(k("c"), image(8, 3));
    assert_eq!(mark_of(&cache, "a"), None);
    assert_eq!(mark_of(&cache, "b"), Some(2));
    assert_eq!(mark_of(&cache, "c"), Some(3));
    assert_eq!(cache.size(), 16);
}

#[test]
fn eviction_is_by_age_not_by_use() {
    let mut cache: Cache<RawImage> = Cache::new(16);
    cache.push(k("a"), image(8, 1));
    cache.push(k("b"), image(8, 2));
    // Looking `a` up does not make it younger.
    assert_eq!(mark_of(&cache, "a"), Some(1));
    cache.push(k("c"), image(8, 3));
    assert_eq!(mark_of(&cache, "a"), None);
    assert_eq!(mark_of(&cache, "b"), Some(2));
    assert_eq!(mark_of(&cache, "c"), Some(3));
}

#[test]
fn a_push_that_fits_exactly_evicts_nothing() {
    let mut cache: Cache<RawImage> = Cache::new(24);
    cache.push(k("a"), image(8, 1));
    cache.push(k("b"), image(8, 2));
    cache.push(k("c"), image(8, 3));
    assert_eq!(cache.size(), 24);
    assert_eq!(mark_of(&cache, "a"), Some(1));
    assert_eq!(mark_of(&cache, "b"), Some(2));
    assert_eq!(mark_of(&cache, "c"), Some(3));
}

#[test]
fn one_push_may_evict_several() {
    let mut cache: Cache<RawImage> = Cache::new(24);
    cache.push(k("a"), image(8, 1));
    cache.push(k("b"), image(8, 2));
    cache.push(k("c"), image(8, 3));
    cache.push(k("d"), image(20, 4));
    assert_eq!(mark_of(&cache, "a"), None);
    assert_eq!(mark_of(&cache, "b"), None);
    assert_eq!(mark_of(&cache, "c"), None);
    assert_eq!(mark_of(&cache, "d"), Some(4));
    assert_eq!(cache.size(), 20);
}

#[test]
fn eviction_stops_as_soon_as_the_newcomer_fits() {
    let mut cache: Cache<RawImage> = Cache::new(24);
    cache.push(k("a"), image(8, 1));
    cache.push(k("b"), image(8, 2));
    cache.push(k("c"), image(8, 3));
    cache.push(k("d"), image(12, 4));
    assert_eq!(mark_of(&cache, "a"), None);
    assert_eq!(mark_of(&cache, "b"), None);
    assert_eq!(mark_of(&cache, "c"), Some(3));
    assert_eq!(mark_of(&cache, "d"), Some(4));
    assert_eq!(cache.size(), 20);
}

#[test]
fn pushing_the_same_key_twice_keeps_the_first_value() {
    let mut cache: Cache<RawImage> = Cache::new(100);
    cache.push(k("a"), image(8, 1));
    cache.push(k("a"), image(16, 2));
    assert_eq!(cache.size(), 8);
    assert_eq!(mark_of(&cache, "a"), Some(1));
    assert_eq!(cache.find(&k("a")).unwrap().get_size(), 8);
}

#[test]
fn pushing_a_held_key_evicts_nothing() {
    let mut cache: Cache<RawImage> = Cache::new(16);
    cache.push(k("a"), image(8, 1));
    cache.push(k("b"), image(8, 2));
    cache.push(k("a"), image(16, 3));
    assert_eq!(cache.size(), 16);
    assert_eq!(mark_of(&cache, "a"), Some(1));
    assert_eq!(mark_of(&cache, "b"), Some(2));
}

#[test]
fn an_oversized_value_ends_up_alone() {
    let mut cache: Cache<RawImage> = Cache::new(16);
    cache.push(k("a"), image(8, 1));
    cache.push(k("b"), image(8, 2));
    cache.push(k("big"), image(40, 3));
    assert_eq!(mark_of(&cache, "a"), None);
    assert_eq!(mark_of(&cache, "b"), None);
    assert_eq!(mark_of(&cache, "big"), Some(3));
    assert_eq!(cache.size(), 40);
    // The next push evicts it like any other entry.
    cache.push(k("c"), image(8, 4));
    assert_eq!(mark_of(&cache, "big"), None);
    assert_eq!(mark_of(&cache, "c"), Some(4));
    assert_eq!(cache.size(), 8);
}

#[test]
fn an_oversized_value_enters_an_empty_cache() {
    let mut cache: Cache<RawImage> = Cache::new(0);
    cache.push(k("a"), image(8, 1));
    assert_eq!(cache.size(), 8);
    assert_eq!(mark_of(&cache, "a"), Some(1));
    cache.push(k("b"), image(4, 2));
    assert_eq!(cache.size(), 4);
    assert_eq!(mark_of(&cache, "a"), None);
    assert_eq!(mark_of(&cache, "b"), Some(2));
}

#[test]
fn an_empty_value_evicts_nothing_from_a_full_cache() {
    let mut cache: Cache<RawImage> = Cache::new(8);
    cache.push(k("a"), image(8, 1));
    cache.push(k("none"), image(0, 0));
    assert_eq!(cache.size(), 8);
    assert_eq!(mark_of(&cache, "a"), Some(1));
    assert!(cache.find(&k("none")).is_some());
}

#[test]
fn clear_empties_the_cache_and_resets_the_size() {
    let mut cache: Cache<RawImage> = Cache::new(16);
    cache.push(k("a"), image(8, 1));
    cache.push(k("b"), image(8, 2));
    cache.clear();
    assert_eq!(cache.size(), 0);
    assert_eq!(mark_of(&cache, "a"), None);
    assert_eq!(mark_of(&cache, "b"), None);
    // The target is still the same: two fit, the third evicts the first.
    cache.push(k("c"), image(8, 3));
    cache.push(k("d"), image(8, 4));
    assert_eq!(cache.size(), 16);
    cache.push(k("e"), image(8, 5));
    assert_eq!(cache.size(), 16);
    assert_eq!(mark_of(&cache, "c"), None);
}

#[test]
fn size_is_the_sum_of_what_is_held_after_every_push() {
    let sizes: [usize; 10] = [8, 4, 12, 40, 4, 4, 16, 8, 28, 4];
    let target = 32;
    let mut cache: Cache<RawImage> = Cache::new(target);
    let mut pushed: Vec<(String, usize)> = Vec::new();
    for (i, bytes) in sizes.iter().enumerate() {
        let name = format!("f{}", i);
        cache.push(name.clone(), image(*bytes, i as u8));
        pushed.push((name, *bytes));
        let held: Vec<usize> = pushed
            .iter()
            .filter(|(name, _)| cache.find(name).is_some())
            .map(|(_, bytes)| *bytes)
            .collect();
        let sum: usize = held.iter().sum();
        assert_eq!(cache.size(), sum);
        assert!(sum <= target || held.len() == 1);
        // What is held is a run of the youngest.
        let first_held = pushed.iter().position(|(name, _)| cache.find(name).is_some()).unwrap();
        assert!(pushed[first_held..].iter().all(|(name, _)| cache.find(name).is_some()));
    }
}

#[test]
fn keys_are_compared_as_whole_paths() {
    let mut cache: Cache<RawImage> = Cache::new(100);
    cache.push(k("dir/a.png"), image(8, 1));
    assert!(cache.find(&k("dir/a.png")).is_some());
    assert!(cache.find(&k("dir/a.pn")).is_none());
    assert!(cache.find(&k("dir/a.png ")).is_none());
    assert!(cache.find(&k("DIR/a.png")).is_none());
    assert!(cache.find(&k("")).is_none());
}
