use crossbeam::mem::epoch::garbage::{Bag, ConcBag, Local, PendingBags};
use crossbeam::mem::epoch::heap::{CellState, Heap};

fn cells(heap: &mut Heap, n: usize) -> Vec<usize> {
    (0..n).map(|_| heap.allocate(9)).collect()
}

#[test]
fn heap_allocates_and_reuses_the_address_freed_last() {
    let mut heap = Heap::new();
    assert_eq!(heap.high_water(), 0);
    assert!(!heap.is_allocated(0));
    assert!(!heap.is_allocated(1));
    let a = heap.allocate(4);
    let b = heap.allocate(5);
    assert_eq!((a, b), (1, 2));
    assert_eq!(heap.state_of(a), CellState::Live);
    assert_eq!(heap.kind_of(a), 4);
    assert_eq!(heap.kind_of(b), 5);
    assert_eq!(heap.kind_of(77), 0);
    heap.free(a);
    assert_eq!(heap.state_of(a), CellState::Free);
    heap.free(b);
    assert_eq!(heap.allocate(6), b);
    assert_eq!(heap.kind_of(b), 6);
    assert_eq!(heap.allocate(6), a);
    assert_eq!(heap.allocate(6), 3);
    assert_eq!(heap.high_water(), 3);
}

#[test]
fn bag_collect_frees_everything() {
    let mut heap = Heap::new();
    let got = cells(&mut heap, 5);
    let mut bag = Bag::new();
    assert_eq!(bag.len(), 0);
    for a in got.iter().skip(1) {
        bag.insert(*a);
    }
    assert_eq!(bag.len(), 4);
    bag.collect(&mut heap);
    assert_eq!(bag.len(), 0);
    assert!(heap.is_allocated(got[0]));
    for a in got.iter().skip(1) {
        assert!(!heap.is_allocated(*a));
    }
}

#[test]
fn pending_bags_free_from_the_front_within_budget() {
    let mut heap = Heap::new();
    let got = cells(&mut heap, 7);
    let mut first = Bag::new();
    let mut second = Bag::new();
    for a in &got[0..3] {
        first.insert(*a);
    }
    for a in &got[3..7] {
        second.insert(*a);
    }
    let mut pending = PendingBags::new();
    assert!(!pending.has_pending());
    assert_eq!(pending.size(), 0);
    pending.add_bag(first);
    pending.add_bag(second);
    pending.evict_to_global();
    assert!(pending.has_pending());
    assert_eq!(pending.size(), 7);
    // a budget of nothing frees nothing
    assert_eq!(pending.collect_pending(0, &mut heap), 0);
    assert_eq!(pending.size(), 7);
    // five of the seven go, across the two bags, and nothing is left of 5
    assert_eq!(pending.collect_pending(5, &mut heap), 0);
    assert_eq!(pending.size(), 2);
    for a in &got[0..5] {
        assert!(!heap.is_allocated(*a));
    }
    for a in &got[5..7] {
        assert!(heap.is_allocated(*a));
    }
    // a budget of ten frees the two that wait; eight are left of it
    assert_eq!(pending.collect_pending(10, &mut heap), 8);
    assert!(!pending.has_pending());
    assert_eq!(pending.collect_pending(3, &mut heap), 3);
}

#[test]
fn local_collect_rotates_and_puts_off_what_the_budget_does_not_cover() {
    let mut heap = Heap::new();
    let got = cells(&mut heap, 9);
    let mut local = Local::new();
    assert_eq!(local.size(), 0);
    for a in &got[0..4] {
        local.insert(*a);
    }
    assert_eq!(local.size(), 4);
    assert_eq!(local.new.len(), 4);
    // first rotation: new becomes current, nothing is old yet
    assert_eq!(local.collect(100, &mut heap), 100);
    assert_eq!((local.old.len(), local.cur.len(), local.new.len()), (0, 4, 0));
    for a in &got[4..9] {
        local.insert(*a);
    }
    assert_eq!(local.collect(100, &mut heap), 100);
    assert_eq!((local.old.len(), local.cur.len(), local.new.len()), (4, 5, 0));
    assert_eq!(local.size(), 9);
    // the budget covers three of the four old items: all four are put
    // off, and three of them are freed
    assert_eq!(local.collect(3, &mut heap), 0);
    assert_eq!((local.old.len(), local.cur.len(), local.new.len()), (5, 0, 0));
    assert_eq!(local.pending.size(), 1);
    assert!(!heap.is_allocated(got[0]) && !heap.is_allocated(got[2]));
    assert!(heap.is_allocated(got[3]));
    // what was put off alone
    assert_eq!(local.collect_pending(0, &mut heap), 0);
    assert!(heap.is_allocated(got[3]));
    // old bag and what was put off are covered by a budget of six, and
    // nothing of it is left
    assert_eq!(local.collect(6, &mut heap), 0);
    assert_eq!(local.size(), 0);
    assert_eq!(local.pending.size(), 0);
    for a in got.iter() {
        assert!(!heap.is_allocated(*a));
    }
    assert_eq!(local.collect_pending(4, &mut heap), 4);
}

#[test]
fn conc_bag_collects_every_donated_bag() {
    let mut heap = Heap::new();
    let got = cells(&mut heap, 6);
    let mut global = ConcBag::new();
    assert!(!global.has_garbage());
    // nothing donated: collecting changes nothing
    global.collect(&mut heap);
    let mut a = Bag::new();
    let mut b = Bag::new();
    a.insert(got[0]);
    a.insert(got[1]);
    b.insert(got[2]);
    global.insert(a);
    global.insert(Bag::new());
    global.insert(b);
    assert!(global.has_garbage());
    global.collect(&mut heap);
    assert!(!global.has_garbage());
    for a in &got[0..3] {
        assert!(!heap.is_allocated(*a));
    }
    for a in &got[3..6] {
        assert!(heap.is_allocated(*a));
    }
}
