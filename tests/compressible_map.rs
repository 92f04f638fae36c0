use compressible_map::{Compressed, CompressibleMap, Compression, LocalCache, MaybeCompressed};
use std::collections::HashMap;

#[derive(Clone, Debug, Default, Eq, PartialEq)]
struct Foo(u32);

struct FooCompressed(u32);

/// Adds one on the way in and one on the way out, so that a value that went through the
/// compressed store can be told apart.
struct PlusOne;

impl Compression for PlusOne {
    type Data = Foo;
    type CompressedData = FooCompressed;

    fn compress(&self, data: &Foo) -> Compressed<Self> {
        Compressed::new(FooCompressed(data.0 + 1))
    }

    fn decompress(compressed: &FooCompressed) -> Foo {
        Foo(compressed.0 + 1)
    }
}

fn new_map() -> CompressibleMap<PlusOne> {
    CompressibleMap::new(PlusOne)
}

#[test]
fn get_after_compress() {
    let mut map = new_map();

    map.insert(1, Foo(0));

    map.compress_lru();

    assert_eq!(map.len_cached(), 0);
    assert_eq!(map.len_compressed(), 1);

    assert_eq!(Some(&Foo(2)), map.get(1));

    assert_eq!(map.len_cached(), 1);
    assert_eq!(map.len_compressed(), 0);
}

#[test]
fn keys_iterator_has_both_cached_and_compressed() {
    let mut map = new_map();

    map.insert(1, Foo(0));
    map.insert(2, Foo(0));

    map.compress_lru();

    let mut keys: Vec<u64> = map.keys();
    keys.sort();
    assert_eq!(keys, vec![1, 2]);
}

#[test]
fn flush_after_get_const_populates_cache() {
    fn do_test_with_global_cache(map: &mut CompressibleMap<PlusOne>) {
        map.insert(1, Foo(0));
        map.insert(2, Foo(1));

        // Compress everything, forcing cache misses to populate the local cache.
        map.compress_lru();
        map.compress_lru();

        let mut local_cache = LocalCache::default();
        let mut values = Vec::new();
        values.push(map.get_const(1, &mut local_cache).cloned());
        values.push(map.get_const(2, &mut local_cache).cloned());

        // The values were decompressed into the local cache.
        assert_eq!(Some(Foo(2)), values[0]);
        assert_eq!(Some(Foo(3)), values[1]);

        // The shared map could not be modified.
        assert_eq!(map.len_cached(), 0);
        assert_eq!(map.len_compressed(), 2);

        map.flush_local_cache(local_cache);

        assert_eq!(map.len_cached(), 2);
        assert_eq!(map.len_compressed(), 0);

        assert_eq!(Some(&Foo(2)), map.get(1));
        assert_eq!(Some(&Foo(3)), map.get(2));
    }

    let mut map = new_map();
    do_test_with_global_cache(&mut map);
}

#[test]
fn multithreaded_borrows() {
    // Populate the map.
    let mut map = new_map();
    for i in 0..100u64 {
        map.insert(i, Foo(i as u32));
    }

    // Compress half of the values.
    for _ in 0..50 {
        map.compress_lru();
    }

    // Gather a batch of reads through one local cache.
    let mut local_cache = LocalCache::new();
    let mut batch = Vec::new();
    for i in 0..100u64 {
        batch.push(map.get_const(i, &mut local_cache).cloned());
    }

    for (i, value) in batch.into_iter().enumerate() {
        if i < 50 {
            // These got compressed and decompressed.
            assert_eq!(value, Some(Foo((i + 2) as u32)))
        } else {
            // These stayed cached.
            assert_eq!(value, Some(Foo(i as u32)))
        }
    }

    map.flush_local_cache(local_cache);

    assert_eq!(map.len_cached(), 100);
}

#[test]
fn multithreaded_decompression() {
    // Populate the map.
    let mut map = new_map();
    for i in 0..100u64 {
        map.insert(i, Foo(i as u32));
    }

    // Compress half of the values.
    for _ in 0..50 {
        map.compress_lru();
    }

    // Each reader has a local cache of its own; the map is only read.
    let mut caches = Vec::new();
    for i in 0..100u64 {
        let mut local_cache = LocalCache::new();
        if i < 50 {
            // These got compressed and decompressed.
            assert_eq!(map.get_const(i, &mut local_cache), Some(&Foo((i + 2) as u32)))
        } else {
            // These stayed cached.
            assert_eq!(map.get_const(i, &mut local_cache), Some(&Foo(i as u32)))
        }
        caches.push(local_cache);
    }

    for cache in caches {
        map.flush_local_cache(cache);
    }

    assert_eq!(map.len_cached(), 100);
}

#[test]
fn merge_brings_back_decompressed_values() {
    let mut map = new_map();
    for i in 0..100u64 {
        map.insert(i, Foo(i as u32));
    }
    for _ in 0..50 {
        map.compress_lru();
    }
    let mut caches = Vec::new();
    for i in 0..100u64 {
        let mut local_cache = LocalCache::new();
        assert!(map.get_const(i, &mut local_cache).is_some());
        caches.push(local_cache);
    }
    for cache in caches {
        map.flush_local_cache(cache);
    }
    assert_eq!(map.len_cached(), 100);
    assert_eq!(map.len_compressed(), 0);
    for i in 0..100u64 {
        let expected = if i < 50 { Foo(i as u32 + 2) } else { Foo(i as u32) };
        assert_eq!(map.get(i), Some(&expected));
    }
}

#[test]
fn compress_lru_takes_least_recently_used_first() {
    let mut map = new_map();
    for i in 0..10u64 {
        map.insert(i, Foo(i as u32));
    }
    for _ in 0..4 {
        map.compress_lru();
    }
    assert_eq!(map.len_cached(), 6);
    assert_eq!(map.len_compressed(), 4);
    let mut compressed: Vec<u64> = Vec::new();
    let mut cached: Vec<u64> = Vec::new();
    for (k, v) in map.iter_maybe_compressed() {
        match v {
            MaybeCompressed::Compressed(_) => compressed.push(k),
            MaybeCompressed::Decompressed(_) => cached.push(k),
        }
    }
    compressed.sort();
    cached.sort();
    assert_eq!(compressed, vec![0, 1, 2, 3]);
    assert_eq!(cached, vec![4, 5, 6, 7, 8, 9]);
}

#[test]
fn touching_a_key_protects_it_from_compression() {
    let mut map = new_map();
    for i in 0..3u64 {
        map.insert(i, Foo(i as u32));
    }
    assert_eq!(map.get(0), Some(&Foo(0)));
    map.compress_lru();
    // Key 1 is now the least recently used one.
    assert_eq!(map.get_copy_without_caching(&1), Some(Foo(3)));
    assert_eq!(map.get_copy_without_caching(&0), Some(Foo(0)));
    assert_eq!(map.len_compressed(), 1);
}

#[test]
fn get_twice_decompresses_once() {
    let mut map = new_map();
    map.insert(7, Foo(5));
    map.compress_lru();
    assert_eq!(map.get(7), Some(&Foo(7)));
    assert_eq!(map.len_compressed(), 0);
    assert_eq!(map.get(7), Some(&Foo(7)));
    assert_eq!(map.len_compressed(), 0);
    assert_eq!(map.len_cached(), 1);
}

#[test]
fn get_const_does_not_change_the_map() {
    let mut map = new_map();
    for i in 0..4u64 {
        map.insert(i, Foo(i as u32));
    }
    map.compress_lru();
    map.compress_lru();
    let mut local_cache = LocalCache::new();
    for i in 0..6u64 {
        map.get_const(i, &mut local_cache);
        map.get_const(i, &mut local_cache);
    }
    assert_eq!(map.len_cached(), 2);
    assert_eq!(map.len_compressed(), 2);
    assert_eq!(map.get_const(9, &mut local_cache), None);
}

#[test]
fn compress_lru_versus_remove_lru() {
    let mut map = new_map();
    for i in 0..5u64 {
        map.insert(i, Foo(i as u32));
    }
    map.compress_lru();
    assert_eq!(map.len_compressed(), 1);
    assert_eq!(map.len_cached(), 4);

    let mut other = new_map();
    for i in 0..5u64 {
        other.insert(i, Foo(i as u32));
    }
    assert_eq!(other.remove_lru(), Some((0, Foo(0))));
    assert_eq!(other.len(), 4);
    assert_eq!(other.len_compressed(), 0);
    assert!(!other.keys().contains(&0));
    assert_eq!(other.get(0), None);
}

#[test]
fn lru_operations_on_an_empty_map() {
    let mut map = new_map();
    map.compress_lru();
    assert!(map.is_empty());
    assert_eq!(map.remove_lru(), None);
    assert_eq!(map.get(3), None);
    assert_eq!(map.len(), 0);
}

#[test]
fn seeding_from_compressed_values() {
    let mut seed = HashMap::new();
    for i in 0..3u64 {
        seed.insert(i, Compressed::<PlusOne>::new(FooCompressed(i as u32 * 10)));
    }
    let mut map = CompressibleMap::from_all_compressed(PlusOne, seed);
    assert_eq!(map.len_compressed(), 3);
    assert_eq!(map.len_cached(), 0);
    let mut keys = map.keys();
    keys.sort();
    assert_eq!(keys, vec![0, 1, 2]);
    assert_eq!(map.get(2), Some(&Foo(21)));
}

#[test]
fn replace_and_remove_return_decompressed_values() {
    let mut map = new_map();
    map.insert(1, Foo(10));
    map.insert(2, Foo(20));
    map.compress_lru();
    assert_eq!(map.replace(1, Foo(11)), Some(Foo(12)));
    assert_eq!(map.replace(2, Foo(21)), Some(Foo(20)));
    assert_eq!(map.replace(3, Foo(30)), None);
    map.compress_lru();
    assert_eq!(map.remove(&1), Some(Foo(13)));
    assert_eq!(map.remove(&2), Some(Foo(21)));
    assert_eq!(map.remove(&1), None);
    assert_eq!(map.len(), 1);
    map.drop(&3);
    assert!(map.is_empty());
}

#[test]
fn insert_compressed_returns_previous_entry() {
    let mut map = new_map();
    map.insert(1, Foo(4));
    match map.insert_compressed(1, Compressed::new(FooCompressed(8))) {
        Some(MaybeCompressed::Decompressed(v)) => assert_eq!(v, Foo(4)),
        _ => panic!("expected the cached value"),
    }
    match map.insert_compressed(1, Compressed::new(FooCompressed(9))) {
        Some(MaybeCompressed::Compressed(c)) => assert_eq!(c.take().0, 8),
        _ => panic!("expected the compressed value"),
    }
    assert!(map.insert_compressed(2, Compressed::new(FooCompressed(1))).is_none());
    assert_eq!(map.len_compressed(), 2);
    assert_eq!(map.len_cached(), 0);
    assert_eq!(map.get(1), Some(&Foo(10)));
}

#[test]
fn insert_drops_stale_compressed_value() {
    let mut map = new_map();
    map.insert(1, Foo(1));
    map.compress_lru();
    map.insert(1, Foo(100));
    assert_eq!(map.len_compressed(), 0);
    assert_eq!(map.len(), 1);
    assert_eq!(map.get(1), Some(&Foo(100)));
}

#[test]
fn get_or_insert_with_creates_missing_values() {
    let mut map = new_map();
    map.insert(1, Foo(1));
    map.compress_lru();
    assert_eq!(*map.get_or_insert_with(1, || Foo(50)), Foo(3));
    *map.get_or_insert_with(2, || Foo(50)) = Foo(51);
    assert_eq!(map.get(2), Some(&Foo(51)));
    if let Some(v) = map.get_mut(1) {
        v.0 = 9;
    }
    assert_eq!(map.get(1), Some(&Foo(9)));
    assert!(map.get_mut(5).is_none());
}

#[test]
fn into_iter_yields_every_entry_once() {
    let mut map = new_map();
    for i in 0..4u64 {
        map.insert(i, Foo(i as u32));
    }
    map.compress_lru();
    let mut seen: Vec<(u64, u32, bool)> = map
        .into_iter()
        .into_iter()
        .map(|(k, v)| match v {
            MaybeCompressed::Decompressed(d) => (k, d.0, false),
            MaybeCompressed::Compressed(c) => (k, c.compressed_data.0, true),
        })
        .collect();
    seen.sort();
    assert_eq!(seen, vec![(0, 1, true), (1, 1, false), (2, 2, false), (3, 3, false)]);
}

#[test]
fn clear_empties_both_stores() {
    let mut map = new_map();
    map.insert(1, Foo(1));
    map.insert(2, Foo(2));
    map.compress_lru();
    map.clear();
    assert!(map.is_empty());
    assert_eq!(map.len_cached(), 0);
    assert_eq!(map.len_compressed(), 0);
    assert!(map.keys().is_empty());
}
