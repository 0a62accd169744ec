use crossbeam::mem::epoch::global::EpochState;
use crossbeam::mem::epoch::heap::Heap;
use crossbeam::mem::epoch::{
    opt_shared_into_raw, pin, Arena, Atomic, MemOrder, Owned, Shared,
};

#[test]
fn owned_moves_the_value_in_and_out() {
    let o = Owned::new(String::from("x"));
    assert_eq!(o.into_inner(), "x");
}

#[test]
fn shared_from_raw_and_back() {
    assert!(Shared::from_raw(0).is_none());
    let p = Shared::from_raw(12).unwrap();
    assert_eq!(p.as_raw(), 12);
    assert_eq!(opt_shared_into_raw(Some(p)), 12);
    assert_eq!(opt_shared_into_raw(None), 0);
}

#[test]
fn atomic_store_load_cas_swap() {
    let mut epoch = EpochState::new();
    let me = epoch.enroll();
    let g = pin(&mut epoch, me);
    let mut arena: Arena<u32> = Arena::new(8);
    assert_eq!(arena.kind_tag(), 8);
    let mut x = Atomic::null();
    assert!(x.is_null());
    assert!(x.load(MemOrder::Acquire, &g).is_none());

    // store publishes the value and hands nothing back
    x.store(Some(Owned::new(1)), MemOrder::Release, &mut arena, &mut epoch.heap);
    let first = x.load(MemOrder::Acquire, &g).unwrap();
    assert_eq!(*arena.get(first, &epoch.heap), 1);
    assert_eq!(epoch.heap.kind_of(first.as_raw()), 8);

    // a compare-and-set against another pointer fails and hands the
    // value back
    let other = x.store_and_ref(Owned::new(2), MemOrder::Release, &g, &mut arena, &mut epoch.heap);
    assert!(other.as_raw() != first.as_raw());
    let r = x.cas(Some(first), Some(Owned::new(3)), MemOrder::Release, &mut arena, &mut epoch.heap);
    match r {
        Err(Some(back)) => assert_eq!(back.into_inner(), 3),
        _ => panic!("the compare-and-set should have failed"),
    }
    assert_eq!(x.load(MemOrder::Acquire, &g), Some(other));
    // and succeeds against the pointer that is there
    assert!(x
        .cas(Some(other), Some(Owned::new(4)), MemOrder::Release, &mut arena, &mut epoch.heap)
        .is_ok());
    let fourth = x.load(MemOrder::Acquire, &g).unwrap();
    assert_eq!(*arena.get(fourth, &epoch.heap), 4);
    // to null
    assert!(x.cas(Some(fourth), None, MemOrder::Release, &mut arena, &mut epoch.heap).is_ok());
    assert!(x.is_null());

    match x.cas_and_ref(Some(fourth), Owned::new(5), MemOrder::Release, &g, &mut arena,
        &mut epoch.heap)
    {
        Err(back) => assert_eq!(back.into_inner(), 5),
        Ok(_) => panic!("the cell holds null"),
    }
    let fifth = x
        .cas_and_ref(None, Owned::new(5), MemOrder::Release, &g, &mut arena, &mut epoch.heap)
        .ok()
        .unwrap();
    assert_eq!(*arena.get(fifth, &epoch.heap), 5);

    assert!(!x.cas_shared(Some(first), Some(other), MemOrder::Relaxed));
    assert!(x.cas_shared(Some(fifth), Some(other), MemOrder::Relaxed));
    assert_eq!(x.load(MemOrder::Relaxed, &g), Some(other));

    x.store_shared(Some(first), MemOrder::Relaxed);
    assert_eq!(x.swap_shared(Some(fourth), MemOrder::Relaxed, &g), Some(first));
    assert_eq!(x.swap(None, MemOrder::Relaxed, &g, &mut arena, &mut epoch.heap), Some(fourth));
    assert_eq!(x.swap(Some(Owned::new(6)), MemOrder::Relaxed, &g, &mut arena, &mut epoch.heap),
        None);
    let sixth = x.load(MemOrder::Relaxed, &g).unwrap();
    *arena.get_mut(sixth, &epoch.heap) += 10;
    assert_eq!(*arena.get(sixth, &epoch.heap), 16);
    assert_eq!(arena.take(sixth.as_raw()), 16);
    arena.put(sixth.as_raw(), 17);
    assert_eq!(*arena.get(sixth, &epoch.heap), 17);
    g.release(&mut epoch);
}

#[test]
fn arenas_of_two_types_share_one_heap() {
    let mut heap = Heap::new();
    let mut words: Arena<u64> = Arena::new(1);
    let mut names: Arena<String> = Arena::new(2);
    let a = words.publish(Owned::new(5), &mut heap);
    let b = names.publish(Owned::new(String::from("b")), &mut heap);
    let c = words.publish(Owned::new(6), &mut heap);
    assert_eq!((a.as_raw(), b.as_raw(), c.as_raw()), (1, 2, 3));
    assert_eq!(*words.get(c, &heap), 6);
    assert_eq!(names.get(b, &heap), "b");
    assert_eq!((heap.kind_of(1), heap.kind_of(2), heap.kind_of(3)), (1, 2, 1));
}
