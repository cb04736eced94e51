use cellsim::data::Heap;

/// Writes through the two references handed out by `get_mut_pair` land in
/// the two distinct slots: neither write is observable through the other.
#[test]
fn pair_access_never_aliases() {
    let mut heap: Heap<u32> = Heap::with_capacity(4);
    let start = heap.insert_alloc_vec(vec![10, 20, 30]);
    assert_eq!(start, 0);

    let (first, second) = heap.get_mut_pair(0, 2);
    assert_eq!(*first, 10);
    assert_eq!(*second, 30);
    *first = 111;
    assert_eq!(*second, 30);
    *second = 333;
    assert_eq!(*first, 111);

    assert_eq!(*heap.get(0), 111);
    assert_eq!(*heap.get(1), 20);
    assert_eq!(*heap.get(2), 333);
}

/// The pair order follows the argument order even when the first index is
/// the larger one.
#[test]
fn pair_access_reversed_indices() {
    let mut heap: Heap<u32> = Heap::with_capacity(2);
    heap.insert_alloc_vec(vec![1, 2]);

    let (first, second) = heap.get_mut_pair(1, 0);
    assert_eq!(*first, 2);
    assert_eq!(*second, 1);
    *first = 22;
    *second = 11;

    assert_eq!(*heap.get(0), 11);
    assert_eq!(*heap.get(1), 22);
}

/// A freed slot is handed out again by the next single-slot allocation:
/// indices are reused, first-fit from index 0.
#[test]
fn freed_index_is_reused() {
    let mut heap: Heap<u32> = Heap::with_capacity(3);
    heap.insert_alloc_vec(vec![5, 6, 7]);

    heap.free(1);
    let start = heap.allocate_slots(1);
    assert_eq!(start, 1);

    heap.insert_vec(start, vec![66]);
    assert_eq!(*heap.get(1), 66);
}

/// With two freed slots, first-fit picks the lower one.
#[test]
fn first_fit_picks_lowest_free_slot() {
    let mut heap: Heap<u32> = Heap::with_capacity(3);
    heap.insert_alloc_vec(vec![5, 6, 7]);

    heap.free(2);
    heap.free(0);
    assert_eq!(heap.allocate_slots(1), 0);
}

/// When no free run is wide enough, storage grows at the end.
#[test]
fn allocation_appends_when_nothing_fits() {
    let mut heap: Heap<u32> = Heap::with_capacity(3);
    heap.insert_alloc_vec(vec![5, 6, 7]);
    heap.free(1);

    // One free slot at index 1, but a run of two cannot fit there.
    let start = heap.allocate_slots(2);
    assert_eq!(start, 3);
    assert_eq!(heap.len(), 5);
}

/// A contiguous free run in the middle is found before the end is grown.
#[test]
fn allocation_finds_interior_run() {
    let mut heap: Heap<u32> = Heap::with_capacity(5);
    heap.insert_alloc_vec(vec![1, 2, 3, 4, 5]);
    heap.free(1);
    heap.free(2);

    assert_eq!(heap.allocate_slots(2), 1);
}

/// Occupied slots are listed in slot order, with original index and dense
/// rank; freed slots leave gaps in the index space but not in the ranks.
#[test]
fn enumerate_compacts_indices() {
    let mut heap: Heap<u32> = Heap::with_capacity(4);
    heap.insert_alloc_vec(vec![10, 20, 30, 40]);
    heap.free(1);

    let entries: Vec<(usize, usize, u32)> =
        heap.flatten_enumerate().into_iter().map(|(o, d, v)| (o, d, *v)).collect();
    assert_eq!(entries, vec![(0, 0, 10), (2, 1, 30), (3, 2, 40)]);

    let values: Vec<u32> = heap.flatten_iter().into_iter().copied().collect();
    assert_eq!(values, vec![10, 30, 40]);
}

/// Mutable flattening hands out one reference per occupied slot, in slot
/// order; writes through them land back in the right slots.
#[test]
fn flatten_iter_mut_writes_back() {
    let mut heap: Heap<u32> = Heap::with_capacity(4);
    heap.insert_alloc_vec(vec![10, 20, 30, 40]);
    heap.free(1);

    let refs = heap.flatten_iter_mut();
    assert_eq!(refs.len(), 3);
    for r in refs {
        *r += 1;
    }

    assert_eq!(*heap.get(0), 11);
    assert!(!heap.is_occupied(1));
    assert_eq!(*heap.get(2), 31);
    assert_eq!(*heap.get(3), 41);
}

/// A fresh heap has the requested capacity and every slot free.
#[test]
fn fresh_heap_is_all_free() {
    let heap: Heap<u32> = Heap::with_capacity(3);
    assert_eq!(heap.len(), 3);
    for i in 0..3 {
        assert!(!heap.is_occupied(i));
    }
    assert_eq!(heap.flatten_iter().len(), 0);
}
