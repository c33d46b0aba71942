use io_uring_echo::slab::Slab;

/// Reuse before grow: freed indices are reused, lowest first, before the
/// array grows past its high-water mark.
#[test]
fn reuse_before_grow() {
    let mut s: Slab<u32> = Slab::with_capacity(8);
    let mut idxs = Vec::new();
    for v in 0..5u32 {
        idxs.push(s.insert(v));
    }
    assert_eq!(idxs, vec![0, 1, 2, 3, 4]);
    assert_eq!(s.len(), 5);

    s.mark_free(1);
    s.mark_free(3);

    // The two freed indices come back, as a set {1, 3}, before any new index.
    let a = s.insert(100);
    let b = s.insert(101);
    assert_eq!((a, b), (1, 3));
    assert_eq!(s.len(), 5);

    // Only now does the slab grow.
    let c = s.insert(102);
    assert_eq!(c, 5);
    assert_eq!(s.len(), 6);
}

/// Occupancy: `get`/`get_mut` yield absent exactly for handles freed and not
/// yet reinserted; in-range queries never fail.
#[test]
fn occupancy_correctness() {
    let mut s: Slab<&str> = Slab::with_capacity(4);
    let h = s.insert("alpha");
    assert_eq!(s.get(h), Some(&"alpha"));
    assert!(s.get_mut(h).is_some());

    s.mark_free(h);
    assert_eq!(s.get(h), None);
    assert!(s.get_mut(h).is_none());

    let h2 = s.insert("beta");
    assert_eq!(h2, h);
    assert_eq!(s.get(h), Some(&"beta"));
}

#[test]
fn get_mut_updates_in_place() {
    let mut s: Slab<u64> = Slab::with_capacity(2);
    let h = s.insert(7);
    if let Some(v) = s.get_mut(h) {
        *v = 99;
    }
    assert_eq!(s.get(h), Some(&99));
}

#[test]
fn replace_returns_previous() {
    let mut s: Slab<u64> = Slab::with_capacity(2);
    let h = s.insert(7);
    let prev = s.replace(h, 8);
    assert_eq!(prev, 7);
    assert_eq!(s.get(h), Some(&8));
}

#[test]
fn bitmap_index_mapping() {
    let s: Slab<u8> = Slab::with_capacity(0);
    assert_eq!(s.get_bitmap_idx(0), (0, 0));
    assert_eq!(s.get_bitmap_idx(63), (0, 63));
    assert_eq!(s.get_bitmap_idx(64), (1, 0));
    assert_eq!(s.get_bitmap_idx(130), (2, 2));
}

/// Crossing a word boundary: the bitmap grows by a word and indices stay
/// stable across the boundary.
#[test]
fn grows_across_word_boundary() {
    let mut s: Slab<usize> = Slab::with_capacity(1);
    for v in 0..65usize {
        assert_eq!(s.insert(v), v);
    }
    assert_eq!(s.len(), 65);
    assert_eq!(s.get(64), Some(&64));

    s.mark_free(64);
    assert_eq!(s.get(64), None);
    assert_eq!(s.insert(1000), 64);
    assert_eq!(s.get(64), Some(&1000));
}

#[test]
fn get_free_prefers_lowest() {
    let mut s: Slab<u8> = Slab::with_capacity(4);
    assert_eq!(s.get_free(), None);
    let a = s.insert(1);
    let b = s.insert(2);
    let c = s.insert(3);
    assert_eq!(s.get_free(), None);
    s.mark_free(c);
    s.mark_free(a);
    assert_eq!(s.get_free(), Some(a));
    s.mark_free(b);
    assert_eq!(s.get_free(), Some(a));
}

#[test]
fn is_vacant_tracks_bits() {
    let mut s: Slab<u8> = Slab::with_capacity(4);
    let h = s.insert(5);
    assert!(s.is_vacant(h));
    s.mark_free(h);
    assert!(!s.is_vacant(h));
    s.mark_vacant(h);
    assert!(s.is_vacant(h));
}
