use arena_alloc::slab::SlabAllocator;

#[test]
fn insert_and_get() {
    let mut slab = SlabAllocator::new();
    let idx = slab.insert(10);
    assert_eq!(slab.get(idx), Some(&10));
}

#[test]
fn remove_and_reuse() {
    let mut slab = SlabAllocator::new();
    let a = slab.insert(1);
    let b = slab.insert(2);
    assert_eq!(slab.remove(a), Some(1));
    let c = slab.insert(3);
    assert_eq!(c, a);
    assert_eq!(slab.get(b), Some(&2));
    assert_eq!(slab.get(c), Some(&3));
    assert_eq!(slab.len(), 2);
}

#[test]
fn slab_reuse_scenario() {
    let mut slab = SlabAllocator::new();
    let a = slab.insert(1);
    let b = slab.insert(2);
    assert_eq!(slab.remove(a), Some(1));
    let c = slab.insert(3);
    assert_eq!(c, a);
    assert_eq!(slab.get(b), Some(&2));
}

#[test]
fn slab_get_freed_index_is_none() {
    let mut slab = SlabAllocator::new();
    let a = slab.insert(7);
    assert_eq!(slab.len(), 1);
    assert_eq!(slab.remove(a), Some(7));
    assert_eq!(slab.len(), 0);
    assert_eq!(slab.get(a), None);
    assert_eq!(slab.remove(a), None);
    assert!(slab.is_empty());
    // the backing vector keeps the slot for reuse
    assert_eq!(slab.capacity(), 1);
}

#[test]
fn slab_out_of_range() {
    let mut slab = SlabAllocator::<u32>::new();
    assert_eq!(slab.get(3), None);
    assert_eq!(slab.remove(3), None);
    assert_eq!(slab.get_mut(3), None);
}

#[test]
fn slab_get_mut_updates() {
    let mut slab = SlabAllocator::new();
    let a = slab.insert(5);
    if let Some(v) = slab.get_mut(a) {
        *v = 9;
    }
    assert_eq!(slab.get(a), Some(&9));
    assert_eq!(slab.len(), 1);
}

#[test]
fn slab_len_tracks_occupancy() {
    let mut slab = SlabAllocator::new();
    let mut handles = Vec::new();
    for i in 0..5 {
        handles.push(slab.insert(i));
        assert_eq!(slab.len(), i + 1);
    }
    for (k, h) in handles.iter().enumerate() {
        assert_eq!(slab.remove(*h), Some(k));
        assert_eq!(slab.len(), 5 - k - 1);
    }
    assert_eq!(slab.capacity(), 5);
}
