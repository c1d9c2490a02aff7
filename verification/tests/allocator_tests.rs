use ecs_core::allocator::{GenerationalIndex, GenerationalIndexAllocator};
use ecs_core::array::GenerationalIndexArray;

#[test]
fn generational_index_allocator_works() {
    let mut alloc = GenerationalIndexAllocator::new();

    let i = alloc.allocate();
    let j = alloc.allocate();

    assert_eq!(i.generation == 0, i.index == 0);
    assert_eq!(j.generation == 0, j.index == 1);

    assert_eq!(alloc.deallocate(i), true);
    assert_eq!(alloc.deallocate(i), false);

    let k = alloc.allocate();

    assert_eq!(k.generation == 1, k.index == 0);

    assert_eq!(alloc.is_live(i), false);
    assert_eq!(alloc.is_live(j), true);
    assert_eq!(alloc.is_live(k), true);
}

#[test]
fn generational_index_array_works_with_multi_gen() {
    let mut alloc = GenerationalIndexAllocator::new();
    let mut arr = GenerationalIndexArray::<i32>::new();

    let i = alloc.allocate();
    arr.set(i, 1);

    match arr.get(i) {
        Some(&x) => assert_eq!(x, 1),
        None => assert!(false),
    }

    alloc.deallocate(i);

    let j = alloc.allocate();
    arr.set(j, 2);

    assert!(arr.get(i).is_none());

    match arr.get(j) {
        Some(&x) => assert_eq!(x, 2),
        None => assert!(false),
    }
}

#[test]
fn generations_at_reused_slot_count_up_from_zero() {
    let mut alloc = GenerationalIndexAllocator::new();

    let a = alloc.allocate();
    assert_eq!(a.index, 0);
    assert_eq!(a.generation, 0);

    assert!(alloc.deallocate(a));
    let b = alloc.allocate();
    assert_eq!(b.index, 0);
    assert_eq!(b.generation, 1);

    assert!(alloc.deallocate(b));
    let c = alloc.allocate();
    assert_eq!(c.index, 0);
    assert_eq!(c.generation, 2);
}

#[test]
fn stale_handle_stays_dead_through_reuse_cycles() {
    let mut alloc = GenerationalIndexAllocator::new();

    let first = alloc.allocate();
    assert!(alloc.deallocate(first));
    assert!(!alloc.is_live(first));

    let mut reused = alloc.allocate();
    assert!(!alloc.is_live(first));
    for _ in 0..3 {
        assert!(alloc.deallocate(reused));
        assert!(!alloc.is_live(first));
        reused = alloc.allocate();
        assert!(!alloc.is_live(first));
    }
}

#[test]
fn deallocate_rejects_bogus_handles() {
    let mut alloc = GenerationalIndexAllocator::new();
    let i = alloc.allocate();

    let out_of_range = GenerationalIndex { index: 5, generation: 0 };
    assert!(!alloc.is_live(out_of_range));
    assert_eq!(alloc.deallocate(out_of_range), false);

    let wrong_generation = GenerationalIndex { index: i.index, generation: i.generation + 1 };
    assert!(!alloc.is_live(wrong_generation));
    assert_eq!(alloc.deallocate(wrong_generation), false);

    assert!(alloc.is_live(i));
}

#[test]
fn array_remove_is_unconditional_and_idempotent() {
    let mut alloc = GenerationalIndexAllocator::new();
    let mut arr = GenerationalIndexArray::<i32>::new();

    let i = alloc.allocate();
    arr.set(i, 41);
    assert!(arr.get(i).is_some());

    // removal needs no matching generation and tolerates repeats
    let newer = GenerationalIndex { index: i.index, generation: i.generation + 7 };
    arr.remove(newer);
    assert!(arr.get(i).is_none());
    arr.remove(newer);
    assert!(arr.get(i).is_none());

    // removing beyond the table is a no-op
    arr.remove(GenerationalIndex { index: 100, generation: 0 });
    assert!(arr.get(i).is_none());
}

#[test]
fn array_get_mut_honours_generations() {
    let mut alloc = GenerationalIndexAllocator::new();
    let mut arr = GenerationalIndexArray::<i32>::new();

    let i = alloc.allocate();
    arr.set(i, 1);

    match arr.get_mut(i) {
        Some(v) => *v = 5,
        None => assert!(false),
    }
    assert_eq!(arr.get(i), Some(&5));

    let stale = GenerationalIndex { index: i.index, generation: i.generation + 1 };
    assert!(arr.get_mut(stale).is_none());
    assert!(arr.get_mut(GenerationalIndex { index: 9, generation: 0 }).is_none());
    assert_eq!(arr.get(i), Some(&5));
}

#[test]
fn array_get_all_valid_skips_dead_and_keeps_order() {
    let mut alloc = GenerationalIndexAllocator::new();
    let mut arr = GenerationalIndexArray::<i32>::new();

    let a = alloc.allocate();
    let b = alloc.allocate();
    let c = alloc.allocate();
    arr.set(a, 10);
    arr.set(b, 20);
    arr.set(c, 30);

    alloc.deallocate(b);

    let found = arr.get_all_valid(&alloc);
    assert_eq!(found.len(), 2);
    assert_eq!(found[0].0, a);
    assert_eq!(*found[0].1, 10);
    assert_eq!(found[1].0, c);
    assert_eq!(*found[1].1, 30);
}

#[test]
fn array_set_overwrites_with_current_generation() {
    let mut alloc = GenerationalIndexAllocator::new();
    let mut arr = GenerationalIndexArray::<i32>::new();

    let i = alloc.allocate();
    arr.set(i, 1);
    arr.set(i, 2);
    assert_eq!(arr.get(i), Some(&2));

    // a newer occupant of the same slot may overwrite the older entry
    alloc.deallocate(i);
    let j = alloc.allocate();
    assert_eq!(j.index, i.index);
    arr.set(j, 3);
    assert_eq!(arr.get(j), Some(&3));
    assert!(arr.get(i).is_none());
}
