use compressible_map::{LocalAccess, LocalCache};

#[test]
fn remembered_access_is_upgraded_by_a_miss() {
    let mut cache: LocalCache<String> = LocalCache::new();
    cache.remember_cached_access(3);
    cache.remember_cached_access(3);
    assert_eq!(cache.get_or_insert_with(3, || "three".to_string()), "three");
    // A recorded copy is returned as it is; the closure is not called.
    assert_eq!(cache.get_or_insert_with(3, || "other".to_string()), "three");
    // A remembered hit does not replace a recorded copy.
    cache.remember_cached_access(3);
    cache.remember_cached_access(4);
    let mut accesses = cache.into_iter();
    accesses.sort_by_key(|(k, _)| *k);
    assert_eq!(accesses.len(), 2);
    assert_eq!(accesses[0].0, 3);
    assert_eq!(accesses[0].1.unwrap_ref(), "three");
    assert_eq!(accesses[1].0, 4);
    assert!(matches!(accesses[1].1, LocalAccess::Cached));
}

#[test]
fn local_access_map_keeps_the_variant() {
    let missed: LocalAccess<u32> = LocalAccess::Missed(20);
    match missed.map(|v| v + 1) {
        LocalAccess::Missed(v) => assert_eq!(v, 21),
        LocalAccess::Cached => panic!("expected a value"),
    }
    let cached: LocalAccess<u32> = LocalAccess::Cached;
    assert!(matches!(cached.map(|v| v + 1), LocalAccess::Cached));
    let empty: LocalCache<u32> = LocalCache::default();
    assert!(empty.into_iter().is_empty());
}
