use peergos_fs::CryptreeCache;

fn cid(seed: u8) -> Vec<u8> {
    vec![seed; 32]
}

// The keying, eviction and migration are tested with negative (`None`) entries, which
// exercise everything except carrying a concrete node.
#[test]
fn hit_miss_and_key_isolation() {
    let mut c = CryptreeCache::new();
    let (r, k) = (cid(1), vec![9u8; 32]);
    assert!(c.get(&r, &k).is_none(), "cold miss");
    c.put(&r, &k, None);
    assert!(matches!(c.get(&r, &k), Some(None)), "cached negative");
    // Different root or key is a distinct entry.
    assert!(c.get(&cid(2), &k).is_none());
    assert!(c.get(&r, &[1u8; 32]).is_none());
}

#[test]
fn lru_evicts_oldest() {
    let mut c = CryptreeCache::with_capacity(2);
    let r = cid(1);
    c.put(&r, &[1u8; 32], None);
    c.put(&r, &[2u8; 32], None);
    // Touch key 1 so key 2 becomes the least-recently-used.
    assert!(c.get(&r, &[1u8; 32]).is_some());
    c.put(&r, &[3u8; 32], None); // evicts key 2
    assert!(c.get(&r, &[1u8; 32]).is_some());
    assert!(c.get(&r, &[3u8; 32]).is_some());
    assert!(c.get(&r, &[2u8; 32]).is_none(), "LRU entry evicted");
}

#[test]
fn migrate_keeps_siblings_and_drops_changed_keys() {
    let mut c = CryptreeCache::new();
    let (old_root, new_root) = (cid(1), cid(2));
    let sibling_a = [1u8; 32];
    let sibling_b = [2u8; 32];
    let mutated = [3u8; 32];
    c.put(&old_root, &sibling_a, None);
    c.put(&old_root, &sibling_b, None);
    c.put(&old_root, &mutated, None);

    c.migrate(&old_root, &new_root, &[mutated.to_vec()]);

    // Unchanged siblings are re-keyed forward to the new root...
    assert!(c.get(&new_root, &sibling_a).is_some());
    assert!(c.get(&new_root, &sibling_b).is_some());
    // ...but the mutated key is dropped under both roots (refetch next read).
    assert!(c.get(&new_root, &mutated).is_none());
    assert!(c.get(&old_root, &mutated).is_none());
}

#[test]
fn only_a_few_roots_are_kept() {
    let mut c = CryptreeCache::new();
    for i in 0..6u8 {
        c.put(&cid(i), &[i; 32], None);
    }
    assert!(c.get(&cid(0), &[0; 32]).is_none(), "the oldest root is dropped");
    assert!(c.get(&cid(5), &[5; 32]).is_some());
}

#[test]
fn update_migrates_siblings_to_new_root() {
    let mut c = CryptreeCache::new();
    let (old_root, new_root) = (cid(1), cid(2));
    let sibling = [7u8; 32];
    let mutated = [8u8; 32];
    c.put(&old_root, &sibling, None);
    c.put(&old_root, &mutated, None);
    // A write produced new_root; the sibling is unchanged so it re-keys forward.
    c.update(Some(&old_root), &new_root, &mutated, None);
    assert!(c.get(&new_root, &sibling).is_some(), "unchanged sibling valid under new root");
    assert!(c.get(&new_root, &mutated).is_some(), "mutated key stored under new root");
}

#[test]
fn clearing_drops_everything() {
    let mut c = CryptreeCache::new();
    c.put(&cid(1), &[1u8; 32], None);
    c.clear();
    assert!(c.get(&cid(1), &[1u8; 32]).is_none());
}
