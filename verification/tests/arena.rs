use pubgrub::arena::{Arena, HashArena, Id};

#[test]
fn alloc_iter_preserves_order_and_duplicates() {
    let mut arena = Arena::new();
    let existing = arena.allocate("existing".to_owned());

    let appended = arena.alloc_iter(
        ["first", "duplicate", "duplicate"]
            .into_iter()
            .map(str::to_owned)
            .collect(),
    );

    assert_eq!(existing.into_raw(), 0);
    assert_eq!(arena.get(existing), "existing");
    assert_eq!(appended.0.into_raw(), 1);
    assert_eq!(appended.1.into_raw(), 4);
    let appended_values: Vec<_> = Id::range_to_iter(appended.0, appended.1)
        .into_iter()
        .map(|id| arena.get(id).as_str())
        .collect();
    assert_eq!(appended_values, ["first", "duplicate", "duplicate"]);

    let empty = arena.alloc_iter(Vec::<String>::new());
    assert_eq!(empty.0.into_raw(), 4);
    assert_eq!(empty.1.into_raw(), 4);
    assert_eq!(arena.len(), 4);
    assert_eq!(arena.get(existing), "existing");
}

#[test]
fn ids_round_trip_through_indices() {
    let id = Id::<u8>::from_usize(7);
    assert_eq!(id.into_raw(), 7);
    assert_eq!(Id::<u8>::from_usize(7), id);
    assert_ne!(Id::<u8>::from_usize(8), id);
    let ids = Id::<u8>::range_to_iter(Id::from_usize(2), Id::from_usize(5));
    let raw: Vec<usize> = ids.into_iter().map(|i| i.into_raw()).collect();
    assert_eq!(raw, vec![2, 3, 4]);
    assert!(Id::<u8>::range_to_iter(Id::from_usize(5), Id::from_usize(2)).is_empty());
}

#[test]
fn get_range_reads_a_slice() {
    let mut arena = Arena::new();
    let (start, end) = arena.alloc_iter(vec![10u32, 20, 30, 40]);
    assert_eq!(arena.get_range(start, end), &[10, 20, 30, 40]);
    assert_eq!(
        arena.get_range(Id::from_usize(1), Id::from_usize(3)),
        &[20, 30]
    );
    let id = arena.allocate(50);
    assert_eq!(*arena.get(id), 50);
    assert_eq!(arena.len(), 5);
}

#[test]
fn hash_arena_stores_each_value_once() {
    let mut arena = HashArena::<u32>::new();
    let a = arena.allocate(7);
    let b = arena.allocate(9);
    let again = arena.allocate(7);
    assert_eq!(a.into_raw(), 0);
    assert_eq!(b.into_raw(), 1);
    assert_eq!(again.into_raw(), 0);
    assert_eq!(*arena.get(a), 7);
    assert_eq!(*arena.get(b), 9);
}
