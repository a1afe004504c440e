use typed_arena::IterableArena;

#[test]
fn live_iteration_observes_later_allocations() {
    let mut a: IterableArena<&str> = IterableArena::with_capacity(2);
    a.alloc_one("a");
    a.alloc_one("b");
    a.alloc_one("c");
    let mut it = a.iter();
    assert_eq!(it.next(&a), Some(&"a"));
    assert_eq!(it.next(&a), Some(&"b"));
    assert_eq!(it.next(&a), Some(&"c"));
    a.alloc_one("d");
    assert_eq!(it.next(&a), Some(&"d"));
    assert_eq!(it.next(&a), None);
    // chosen policy: a step that finds nothing does not end the cursor, so
    // an element allocated after a None was observed is still produced
    a.alloc_one("e");
    assert_eq!(it.next(&a), Some(&"e"));
    assert_eq!(it.next(&a), None);
}

#[test]
fn iteration_in_allocation_order_across_chunks() {
    let mut a: IterableArena<u32> = IterableArena::with_capacity(1);
    for i in 0..10u32 {
        a.alloc_one(i);
    }
    let mut it = a.iter();
    for i in 0..10u32 {
        assert_eq!(it.next(&a), Some(&i));
    }
    assert_eq!(it.next(&a), None);
}

#[test]
fn iterator_survives_retirement_of_its_chunk() {
    // force a growth that retires the very chunk the cursor stands in: the
    // cursor carries on undisturbed, the same index now naming a frozen chunk
    let mut a: IterableArena<u32> = IterableArena::with_capacity(2);
    a.alloc_one(1);
    a.alloc_one(2);
    let mut it = a.iter();
    assert_eq!(it.next(&a), Some(&1));
    a.alloc_extend(vec![3, 4, 5]);
    assert_eq!(it.next(&a), Some(&2));
    assert_eq!(it.next(&a), Some(&3));
    assert_eq!(it.next(&a), Some(&4));
    assert_eq!(it.next(&a), Some(&5));
    assert_eq!(it.next(&a), None);
}

#[test]
fn iterator_skips_empty_retired_chunk() {
    // a batch that overruns an empty current chunk retires it empty; the
    // cursor steps over it
    let mut a: IterableArena<u32> = IterableArena::with_capacity(1);
    a.alloc_extend(vec![7, 8]);
    let mut it = a.iter();
    assert_eq!(it.next(&a), Some(&7));
    assert_eq!(it.next(&a), Some(&8));
    assert_eq!(it.next(&a), None);
}

#[test]
fn iterable_arena_batches_and_handles() {
    let mut a: IterableArena<u32> = IterableArena::with_capacity(2);
    let h1 = a.alloc_extend(vec![1, 2, 3]);
    assert_eq!(h1, 0);
    let h2 = a.alloc_extend_hinted(vec![4, 5, 6], 0);
    assert_eq!(h2, 3);
    assert_eq!(*a.get(0), 1);
    assert_eq!(*a.get(3), 4);
    assert_eq!(a.len(), 6);
    assert_eq!(a.into_vec(), vec![1, 2, 3, 4, 5, 6]);
}

#[test]
fn iterable_arena_empty_into_vec() {
    let a: IterableArena<u32> = IterableArena::new();
    assert_eq!(a.into_vec(), Vec::<u32>::new());
}
