use region_render::cache::NeighborCache;

#[test]
fn new_cache_knows_no_neighbor() {
    let cache: NeighborCache<u32> = NeighborCache::new(3);
    assert_eq!(cache.width(), 3);
    assert_eq!(cache.neighbor(0), None);
    assert_eq!(cache.neighbor(1), None);
    assert_eq!(cache.neighbor(2), None);
}

#[test]
fn cache_of_no_columns() {
    let cache: NeighborCache<u32> = NeighborCache::new(0);
    assert_eq!(cache.width(), 0);
}

#[test]
fn seed_sets_one_slot() {
    let mut cache: NeighborCache<u32> = NeighborCache::new(3);
    cache.seed(1, Some(11));
    assert_eq!(cache.neighbor(0), None);
    assert_eq!(cache.neighbor(1), Some(&11));
    assert_eq!(cache.neighbor(2), None);
    cache.seed(1, None);
    assert_eq!(cache.neighbor(1), None);
}

#[test]
fn update_replaces_one_slot() {
    let mut cache: NeighborCache<u32> = NeighborCache::new(2);
    cache.seed(0, Some(1));
    cache.seed(1, Some(2));
    cache.update(0, Some(3));
    assert_eq!(cache.neighbor(0), Some(&3));
    assert_eq!(cache.neighbor(1), Some(&2));
    cache.update(1, None);
    assert_eq!(cache.neighbor(0), Some(&3));
    assert_eq!(cache.neighbor(1), None);
    assert_eq!(cache.width(), 2);
}
