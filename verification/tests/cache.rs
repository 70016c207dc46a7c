use terra::cache::{CacheOutcome, SectorCache};
use terra::sector::Sector;

fn key(face: u8, x: u32, y: u32) -> Sector {
    Sector { face, x, y }
}

#[test]
fn concurrent_requests_share_one_load() {
    let mut cache = SectorCache::new(4);
    let s = key(0, 1, 2);
    // The first request starts the load; later requests in the same window
    // join it, before and after the decode lands.
    assert_eq!(cache.get(s, 3), CacheOutcome::StartLoad);
    assert_eq!(cache.get(s, 3), CacheOutcome::InFlight);
    assert_eq!(cache.get(s, 3), CacheOutcome::InFlight);
    cache.complete_load(s, 3, vec![1, 2, 3, 4]);
    assert_eq!(cache.get(s, 3), CacheOutcome::Resident);
    assert_eq!(cache.get_data(s, 3), &vec![1, 2, 3, 4]);
}

#[test]
fn the_same_sector_at_another_level_is_another_entry() {
    let mut cache = SectorCache::new(4);
    let s = key(0, 1, 2);
    assert_eq!(cache.get(s, 3), CacheOutcome::StartLoad);
    assert_eq!(cache.get(s, 4), CacheOutcome::StartLoad);
}

#[test]
fn referenced_entries_are_never_evicted() {
    let mut cache = SectorCache::new(2);
    // Three entries, all with outstanding references: the cache runs over
    // its capacity rather than dropping an entry in use.
    for i in 0..3 {
        let s = key(0, i, 0);
        assert_eq!(cache.get(s, 0), CacheOutcome::StartLoad);
        cache.complete_load(s, 0, vec![i as i16]);
    }
    for i in 0..3 {
        assert_eq!(cache.get(key(0, i, 0), 0), CacheOutcome::Resident);
    }
}

#[test]
fn releasing_over_capacity_trims_the_cache() {
    let mut cache = SectorCache::new(2);
    for i in 0..3 {
        let s = key(0, i, 0);
        cache.get(s, 0);
        cache.complete_load(s, 0, vec![i as i16]);
    }
    // Dropping the reference to the first entry brings the cache back to
    // its capacity: that entry is gone, the others stay.
    cache.release(key(0, 0, 0), 0);
    assert_eq!(cache.get(key(0, 0, 0), 0), CacheOutcome::StartLoad);
    assert_eq!(cache.get(key(0, 1, 0), 0), CacheOutcome::Resident);
    assert_eq!(cache.get(key(0, 2, 0), 0), CacheOutcome::Resident);
}

#[test]
fn eviction_takes_the_least_recently_used_entry() {
    let mut cache = SectorCache::new(2);
    let a = key(0, 0, 0);
    let b = key(0, 1, 0);
    let c = key(0, 2, 0);
    cache.get(a, 0);
    cache.complete_load(a, 0, vec![1]);
    cache.get(b, 0);
    cache.complete_load(b, 0, vec![2]);
    cache.release(a, 0);
    cache.release(b, 0);
    // Unreferenced entries stay resident while there is room...
    assert_eq!(cache.get(a, 0), CacheOutcome::Resident);
    cache.release(a, 0);
    // ...and a miss evicts the least recently used one: b, not a.
    assert_eq!(cache.get(c, 0), CacheOutcome::StartLoad);
    cache.complete_load(c, 0, vec![3]);
    assert_eq!(cache.get(a, 0), CacheOutcome::Resident);
    assert_eq!(cache.get(b, 0), CacheOutcome::StartLoad);
}
