use typed_arena::Arena;

#[test]
fn empty_arena_into_vec_is_empty() {
    let a: Arena<u32> = Arena::new();
    let v = a.into_vec();
    assert!(v.is_empty());
}

#[test]
fn with_capacity_floors_to_one() {
    let a: Arena<u8> = Arena::with_capacity(0);
    assert_eq!(a.capacity(), 1);
    assert_eq!(a.remaining_capacity(), 1);
}

#[test]
fn new_sizes_first_chunk_by_element_size() {
    let a: Arena<u8> = Arena::new();
    assert_eq!(a.capacity(), 1024);
    let b: Arena<u32> = Arena::new();
    assert_eq!(b.capacity(), 256);
    // an element larger than the whole budget: floored to room for one
    let c: Arena<[u64; 300]> = Arena::new();
    assert_eq!(c.capacity(), 1);
}

#[test]
fn alloc_returns_sequential_handles() {
    let mut a: Arena<u32> = Arena::with_capacity(4);
    for i in 0..10u32 {
        let h = a.alloc_one(i * 7);
        assert_eq!(h, i as usize);
        assert_eq!(*a.get(h), i * 7);
    }
    assert_eq!(a.len(), 10);
}

#[test]
fn order_preserved_across_chunk_boundaries() {
    let mut a: Arena<u32> = Arena::with_capacity(1);
    for i in 0..5u32 {
        a.alloc_one(i);
    }
    let h = a.alloc_extend(vec![5, 6, 7, 8, 9]);
    assert_eq!(h, 5);
    let v = a.into_vec();
    assert_eq!(v, vec![0, 1, 2, 3, 4, 5, 6, 7, 8, 9]);
}

#[test]
fn growth_doubles_capacity_on_each_retirement() {
    // starting capacity 1: each retirement doubles, so the chunks created
    // have capacities 1, 2, 4, 8 while eight values go in one at a time
    let mut a: Arena<u8> = Arena::with_capacity(1);
    let mut caps = Vec::new();
    let mut counts = Vec::new();
    for i in 0..8u8 {
        a.alloc_one(i);
        caps.push(a.capacity());
        counts.push(a.chunk_count());
    }
    assert_eq!(caps, vec![1, 2, 2, 4, 4, 4, 4, 8]);
    assert_eq!(counts, vec![1, 2, 2, 3, 3, 3, 3, 4]);
}

#[test]
fn growth_floors_at_batch_power_of_two() {
    // a batch far beyond double the capacity: the new chunk's capacity is
    // the next power of two of the request, max(2*1, next_pow2(5)) = 8
    let mut a: Arena<u32> = Arena::with_capacity(1);
    a.alloc_one(0);
    a.alloc_extend(vec![1, 2, 3, 4, 5]);
    assert_eq!(a.capacity(), 8);
    assert_eq!(a.chunk_count(), 2);
}

#[test]
fn batch_overrun_splices_into_fresh_chunk() {
    let mut a: Arena<u32> = Arena::with_capacity(4);
    a.alloc_one(100);
    a.alloc_one(101);
    // a batch of 5 with a lower-bound estimate of 1: the chunk has room for
    // only 2 more, so the overrun is discovered mid-way and spliced
    let h = a.alloc_extend_hinted(vec![1, 2, 3, 4, 5], 1);
    assert_eq!(h, 2);
    // the returned run is contiguous and complete
    for i in 0..5 {
        assert_eq!(*a.get(h + i), (i + 1) as u32);
    }
    // the retired chunk kept exactly its pre-call contents
    assert_eq!(a.chunk_count(), 2);
    assert_eq!(a.chunk_len(0), 2);
    assert_eq!(a.chunk_len(1), 5);
    // room ran out after 2 spliced elements; growth asked for those plus
    // the one in hand: max(2*4, next_pow2(3)) = 8
    assert_eq!(a.capacity(), 8);
    assert_eq!(a.into_vec(), vec![100, 101, 1, 2, 3, 4, 5]);
}

#[test]
fn batch_with_exact_length_grows_up_front() {
    let mut a: Arena<u32> = Arena::with_capacity(2);
    a.alloc_one(7);
    let h = a.alloc_extend(vec![1, 2, 3, 4]);
    assert_eq!(h, 1);
    assert_eq!(a.chunk_count(), 2);
    // the old chunk was retired mid-fill with only its pre-call contents
    assert_eq!(a.chunk_len(0), 1);
    assert_eq!(a.chunk_len(1), 4);
    // max(2*2, next_pow2(4)) = 4
    assert_eq!(a.capacity(), 4);
    assert_eq!(a.into_vec(), vec![7, 1, 2, 3, 4]);
}

#[test]
fn batch_fits_in_place() {
    let mut a: Arena<u32> = Arena::with_capacity(8);
    a.alloc_one(9);
    let h = a.alloc_extend(vec![1, 2, 3]);
    assert_eq!(h, 1);
    assert_eq!(a.chunk_count(), 1);
    assert_eq!(a.capacity(), 8);
    assert_eq!(a.remaining_capacity(), 4);
    assert_eq!(a.into_vec(), vec![9, 1, 2, 3]);
}

#[test]
fn empty_batch_allocates_nothing() {
    let mut a: Arena<u32> = Arena::with_capacity(1);
    let h = a.alloc_extend(Vec::new());
    assert_eq!(h, 0);
    assert_eq!(a.len(), 0);
    assert_eq!(a.chunk_count(), 1);
    assert_eq!(a.into_vec(), Vec::<u32>::new());
}

#[test]
fn handles_stay_valid_under_growth() {
    let mut a: Arena<u64> = Arena::with_capacity(1);
    let mut handles = Vec::new();
    for i in 0..100u64 {
        handles.push(a.alloc_one(i * 3));
    }
    // every early element reads unchanged after many later allocations,
    // whichever chunk it landed in
    for (i, &h) in handles.iter().enumerate() {
        assert_eq!(*a.get(h), (i as u64) * 3);
    }
}

#[test]
fn into_vec_length_matches_allocation_count() {
    for n in 0..40usize {
        let mut a: Arena<usize> = Arena::with_capacity(3);
        for i in 0..n {
            a.alloc_one(i);
        }
        let v = a.into_vec();
        assert_eq!(v.len(), n);
        for (i, x) in v.iter().enumerate() {
            assert_eq!(*x, i);
        }
    }
}

#[test]
fn remaining_capacity_tracks_fill() {
    let mut a: Arena<u8> = Arena::with_capacity(3);
    assert_eq!(a.remaining_capacity(), 3);
    a.alloc_one(1);
    assert_eq!(a.remaining_capacity(), 2);
    a.alloc_one(2);
    a.alloc_one(3);
    assert_eq!(a.remaining_capacity(), 0);
    a.alloc_one(4);
    // a fresh chunk of capacity 6 holding one element
    assert_eq!(a.remaining_capacity(), 5);
}
