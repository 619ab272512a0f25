use kcore::heap::Heap;
use kcore::rbtree::rbtree;

/// A 14 208-byte region serves one 14 200-byte allocation and then nothing:
/// the lone leftover word is absorbed into the allocation.
#[test]
fn heap_whole_region_then_exhausted() {
    let mut h = Heap::heap_init(14208 / 4);
    let p = h.kmalloc(14200);
    assert!(p.is_some());
    assert_eq!(p.unwrap(), 1);
    assert!(h.kmalloc(4).is_none());
    assert!(h.kmalloc(4).is_none());
    assert!(h.kmalloc(4).is_none());
}

#[test]
fn heap_rejects_zero_and_oversize() {
    let mut h = Heap::heap_init(1024);
    assert!(h.kmalloc(0).is_none());
    assert!(h.kmalloc(131073).is_none());
}

/// Walking headers from the base covers the region exactly, block by block.
fn check_heap_invariants(h: &Heap) {
    let blocks = h.block_headers();
    let words = h.region_words() as u32;
    assert!(!blocks.is_empty());
    // Offsets chain one past each block's payload and end at the region end.
    let mut expected_off = 0u32;
    for i in 0..blocks.len() {
        let (off, size, _taken) = blocks[i];
        assert_eq!(off, expected_off);
        expected_off = off + 1 + size;
    }
    assert_eq!(expected_off, words);
    // No two consecutive free blocks.
    for i in 0..blocks.len() - 1 {
        assert!(blocks[i].2 || blocks[i + 1].2);
    }
    // Each header's previous-size field names its predecessor's size.
    for i in 0..blocks.len() {
        let hdr = h.read_word(blocks[i].0 as usize);
        let prev = (hdr >> 16) & 0x7FFF;
        if i == 0 {
            assert_eq!(prev, 0);
        } else {
            assert_eq!(prev, blocks[i - 1].1);
        }
    }
}

#[test]
fn heap_invariants_over_alloc_free_sequences() {
    let mut h = Heap::heap_init(1024);
    check_heap_invariants(&h);
    let a = h.kmalloc(100).unwrap();
    check_heap_invariants(&h);
    let b = h.kmalloc(200).unwrap();
    let c = h.kmalloc(52).unwrap();
    check_heap_invariants(&h);
    assert!(h.kfree(b));
    check_heap_invariants(&h);
    // Freeing the middle neighbour coalesces with the free block after `a`.
    assert!(h.kfree(a));
    check_heap_invariants(&h);
    assert!(h.kfree(c));
    check_heap_invariants(&h);
    // Everything came back: the region is one free block again.
    let blocks = h.block_headers();
    assert_eq!(blocks.len(), 1);
    assert_eq!(blocks[0], (0, 1023, false));
}

#[test]
fn heap_free_is_idempotent_and_checked() {
    let mut h = Heap::heap_init(256);
    let a = h.kmalloc(40).unwrap();
    let before = h.block_headers();
    // An out-of-range pointer is refused.
    assert!(!h.kfree(0));
    assert!(!h.kfree(100000));
    assert_eq!(h.block_headers(), before);
    assert!(h.is_block_start(a));
    assert!(h.kfree(a));
    let freed = h.block_headers();
    // Freeing an already-free block changes nothing.
    assert!(h.kfree(a));
    assert_eq!(h.block_headers(), freed);
}

#[test]
fn heap_first_fit_splits_and_reuses() {
    let mut h = Heap::heap_init(1024);
    let a = h.kmalloc(64).unwrap();
    assert_eq!(a, 1);
    let b = h.kmalloc(64).unwrap();
    // The split block's tail starts one word past the first allocation.
    assert_eq!(b, a + 64 / 4 + 1);
    assert!(h.kfree(a));
    // First fit hands the freed slot out again.
    let c = h.kmalloc(64).unwrap();
    assert_eq!(c, a);
}

/// Insert a mix of keys; the smallest is first, lookups hit, misses miss.
#[test]
fn tree_insert_first_lookup() {
    let mut t: rbtree<u64> = rbtree::new();
    let keys: [i64; 9] = [2, 1, 0, 7, 16, 42, 37, 165, -123];
    for (i, k) in keys.iter().enumerate() {
        t.insert(*k, (i as u64) * 10);
    }
    assert_eq!(t.len, 9);
    let first = t.first();
    assert!(first.is_some());
    assert_eq!(first.unwrap().0, -123);
    assert_eq!(t.lookup(165), Some(&70));
    assert_eq!(t.lookup(-1), None);
}

#[test]
fn tree_round_trip() {
    let mut t: rbtree<u64> = rbtree::new();
    let keys: [i64; 7] = [5, 3, 8, 1, 4, 9, 7];
    for k in keys.iter() {
        t.insert(*k, (*k as u64) + 100);
    }
    for k in keys.iter() {
        assert_eq!(t.lookup(*k), Some(&((*k as u64) + 100)));
    }
    // Overwriting a key keeps the length.
    t.insert(3, 999);
    assert_eq!(t.len, 7);
    assert_eq!(t.lookup(3), Some(&999));
    // Delete then lookup misses; the rest stays.
    assert!(t.delete(5));
    assert!(!t.delete(5));
    assert_eq!(t.lookup(5), None);
    assert_eq!(t.len, 6);
    assert_eq!(t.lookup(4), Some(&104));
    assert_eq!(t.first().unwrap().0, 1);
    assert!(t.delete(1));
    assert_eq!(t.first().unwrap().0, 3);
    // Remove the minimum repeatedly: keys come out in order.
    let mut prev = i64::MIN;
    while let Some((k, _v)) = t.remove_min() {
        assert!(k > prev);
        prev = k;
    }
    assert_eq!(t.len, 0);
    assert!(t.first().is_none());
}

#[test]
fn tree_entries_and_dispose() {
    let mut t: rbtree<u64> = rbtree::new();
    t.insert(10, 1);
    t.insert(-2, 2);
    t.insert(4, 3);
    let e = t.entries();
    assert_eq!(e.len(), 3);
    assert!(e.contains(&(10, 1)));
    assert!(e.contains(&(-2, 2)));
    assert!(e.contains(&(4, 3)));
    t.dispose();
    assert_eq!(t.len, 0);
    assert!(t.lookup(10).is_none());
}
