use cart_cache::CartCache;
use rand::Rng;

#[test]
fn random_inserts() {
    let count = 1_000_000;
    let mut cached: u64 = 0;
    let mut cache: CartCache<u8, u8> = CartCache::new(128).unwrap();
    let mut rng = rand::weak_rng();

    for _ in 0..count {
        let key: u8 = rng.gen();
        cache.insert(key, key);
        let key: u8 = rng.gen();
        // A key counts as cached while the cache remembers it, as a resident
        // entry or as a ghost; the lookup touches it where it is resident.
        let known = cache.contains_key(&key);
        let found = cache.get(&key).is_some();
        assert!(known || !found);
        if known {
            cached += 1;
        }
    }
    assert!(cached > count / 3);
}

#[test]
fn random_lookups_hit_the_resident_quarter() {
    let count = 200_000;
    let mut hits: u64 = 0;
    let mut cache: CartCache<u8, u8> = CartCache::new(128).unwrap();
    let mut rng = rand::weak_rng();

    for _ in 0..count {
        let key: u8 = rng.gen();
        cache.insert(key, key);
        assert_eq!(cache.get(&key), Some(&key));
        let key: u8 = rng.gen();
        if let Some(value) = cache.get(&key) {
            assert_eq!(*value, key);
            hits += 1;
        }
        assert!(cache.len() <= 128);
    }
    // 64 of the 256 keys are resident at any time, and only those are hits.
    assert!(hits > count / 5);
    assert!(hits < count / 3);
}
