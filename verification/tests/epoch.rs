use crossbeam::mem::epoch::global::EpochState;
use crossbeam::mem::epoch::heap::{CellState, Heap};
use crossbeam::mem::epoch::participant::Participant;
use crossbeam::mem::epoch::{
    __get_gc_guard_for, is_gc_enabled, pin, pin_nogc, pin_waitfree, try_gc, try_local_gc, Arena,
    Atomic, MemOrder, Owned,
};
use crossbeam::sync::treiber_stack::TreiberStack;
use std::sync::atomic::AtomicUsize;
use std::sync::atomic::Ordering::Relaxed;

#[test]
fn test_gc_default_enable() {
    let mut epoch = EpochState::new();
    let me = epoch.enroll();
    assert_eq!(is_gc_enabled(&epoch, me), true);
}

#[test]
fn test_gc_disable() {
    let mut epoch = EpochState::new();
    let me = epoch.enroll();
    assert_eq!(is_gc_enabled(&epoch, me), true);
    {
        let scope = __get_gc_guard_for(&mut epoch, me, false);
        assert_eq!(is_gc_enabled(&epoch, me), false);
        scope.restore(&mut epoch);
    }
    assert_eq!(is_gc_enabled(&epoch, me), true);
}

#[test]
fn test_gc_control_scope() {
    let mut epoch = EpochState::new();
    let me = epoch.enroll();
    {
        let outer = __get_gc_guard_for(&mut epoch, me, false);
        assert_eq!(is_gc_enabled(&epoch, me), false);
        {
            let middle = __get_gc_guard_for(&mut epoch, me, true);
            assert_eq!(is_gc_enabled(&epoch, me), true);
            {
                let inner = __get_gc_guard_for(&mut epoch, me, false);
                assert_eq!(is_gc_enabled(&epoch, me), false);
                inner.restore(&mut epoch);
            }
            assert_eq!(is_gc_enabled(&epoch, me), true);
            middle.restore(&mut epoch);
        }
        assert_eq!(is_gc_enabled(&epoch, me), false);
        outer.restore(&mut epoch);
    }
    assert_eq!(is_gc_enabled(&epoch, me), true);
}

static DROPS: AtomicUsize = AtomicUsize::new(0);

struct Test;

impl Drop for Test {
    fn drop(&mut self) {
        DROPS.fetch_add(1, Relaxed);
    }
}

#[test]
fn test_no_drop() {
    let mut epoch = EpochState::new();
    let me = epoch.enroll();
    let mut arena: Arena<Test> = Arena::new(7);
    let g = pin(&mut epoch, me);

    let mut x = Atomic::null();
    x.store(Some(Owned::new(Test)), MemOrder::Relaxed, &mut arena, &mut epoch.heap);
    x.store_and_ref(Owned::new(Test), MemOrder::Relaxed, &g, &mut arena, &mut epoch.heap);
    let y = x.load(MemOrder::Relaxed, &g);
    let z = x
        .cas_and_ref(y, Owned::new(Test), MemOrder::Relaxed, &g, &mut arena, &mut epoch.heap)
        .ok();
    let _ = x.cas(z, Some(Owned::new(Test)), MemOrder::Relaxed, &mut arena, &mut epoch.heap);
    x.swap(Some(Owned::new(Test)), MemOrder::Relaxed, &g, &mut arena, &mut epoch.heap);

    assert_eq!(DROPS.load(Relaxed), 0);
    g.release(&mut epoch);
}

static DROPS_NOGC: AtomicUsize = AtomicUsize::new(0);

struct TestNoGc;

impl Drop for TestNoGc {
    fn drop(&mut self) {
        DROPS_NOGC.fetch_add(1, Relaxed);
    }
}

#[test]
fn test_no_drop_nogc() {
    let mut epoch = EpochState::new();
    let me = epoch.enroll();
    let mut arena: Arena<TestNoGc> = Arena::new(7);
    let g = pin_nogc(&mut epoch, me);

    let mut x = Atomic::null();
    x.store(Some(Owned::new(TestNoGc)), MemOrder::Relaxed, &mut arena, &mut epoch.heap);
    x.store_and_ref(Owned::new(TestNoGc), MemOrder::Relaxed, &g, &mut arena, &mut epoch.heap);
    let y = x.load(MemOrder::Relaxed, &g);
    let z = x
        .cas_and_ref(y, Owned::new(TestNoGc), MemOrder::Relaxed, &g, &mut arena, &mut epoch.heap)
        .ok();
    let _ = x.cas(z, Some(Owned::new(TestNoGc)), MemOrder::Relaxed, &mut arena, &mut epoch.heap);
    x.swap(Some(Owned::new(TestNoGc)), MemOrder::Relaxed, &g, &mut arena, &mut epoch.heap);

    assert_eq!(DROPS_NOGC.load(Relaxed), 0);
    g.release(&mut epoch);
}

fn in_critical(epoch: &EpochState, who: usize) -> usize {
    epoch.participants.get(who, &epoch.heap).in_critical
}

fn local_epoch(epoch: &EpochState, who: usize) -> usize {
    epoch.participants.get(who, &epoch.heap).epoch
}

fn garbage_size(epoch: &EpochState, who: usize) -> usize {
    epoch.participants.get(who, &epoch.heap).garbage_size()
}

fn allocated_cells(heap: &Heap) -> usize {
    let mut n = 0;
    for a in 1..=heap.high_water() {
        if heap.is_allocated(a) {
            n += 1;
        }
    }
    n
}

#[test]
fn pins_nest_and_balance() {
    let mut epoch = EpochState::new();
    let me = epoch.enroll();
    assert_eq!(in_critical(&epoch, me), 0);
    let mut guards = Vec::new();
    for n in 0..7 {
        guards.push(pin(&mut epoch, me));
        assert_eq!(in_critical(&epoch, me), n + 1);
    }
    // the last guard goes first
    let mut left = 7;
    while let Some(g) = guards.pop() {
        g.release(&mut epoch);
        left -= 1;
        assert_eq!(in_critical(&epoch, me), left);
    }
    assert_eq!(in_critical(&epoch, me), 0);
}

#[test]
fn first_pin_takes_over_the_global_epoch_and_nested_pins_keep_it() {
    let mut epoch = EpochState::new();
    let a = epoch.enroll();
    let b = epoch.enroll();
    // b advances the epoch twice while a is not pinned
    assert_eq!(try_gc(&mut epoch, b), Some((false, true)));
    assert_eq!(try_gc(&mut epoch, b), Some((false, true)));
    assert_eq!(epoch.epoch, 2);
    assert_eq!(local_epoch(&epoch, a), 0);
    let outer = pin(&mut epoch, a);
    assert_eq!(local_epoch(&epoch, a), 2);
    // b can advance once more: a is pinned at the current epoch
    assert_eq!(try_gc(&mut epoch, b), Some((false, true)));
    assert_eq!(epoch.epoch, 3);
    // a nested pin only counts
    let inner = pin(&mut epoch, a);
    assert_eq!(local_epoch(&epoch, a), 2);
    // now a is one behind and holds the epoch back
    assert_eq!(try_gc(&mut epoch, b), Some((false, false)));
    assert_eq!(try_gc(&mut epoch, b), Some((false, false)));
    assert_eq!(epoch.epoch, 3);
    inner.release(&mut epoch);
    assert_eq!(try_gc(&mut epoch, b), Some((false, false)));
    outer.release(&mut epoch);
    assert_eq!(try_gc(&mut epoch, b), Some((false, true)));
    assert_eq!(epoch.epoch, 4);
}

#[test]
fn try_gc_reports_local_and_global_collection() {
    let mut epoch = EpochState::new();
    let a = epoch.enroll();
    let b = epoch.enroll();
    assert_eq!(try_gc(&mut epoch, a), Some((false, true)));
    assert_eq!(epoch.epoch, 1);
    // b is behind: its next pin collects locally
    assert_eq!(try_gc(&mut epoch, b), Some((true, true)));
    assert_eq!(epoch.epoch, 2);
    assert_eq!(try_local_gc(&mut epoch, a), Some(false));
    assert_eq!(epoch.epoch, 2);
    assert_eq!(local_epoch(&epoch, a), 2);
    // switched off: nothing runs
    let scope = __get_gc_guard_for(&mut epoch, a, false);
    assert_eq!(try_gc(&mut epoch, a), None);
    assert_eq!(try_local_gc(&mut epoch, a), None);
    assert_eq!(epoch.epoch, 2);
    scope.restore(&mut epoch);
    assert_eq!(try_gc(&mut epoch, a), Some((false, true)));
}

#[test]
fn a_pinned_reader_keeps_an_unlinked_node_allocated() {
    let mut epoch = EpochState::new();
    let reader = epoch.enroll();
    let writer = epoch.enroll();
    let mut stack: TreiberStack<u64> = TreiberStack::new();
    stack.push(11, &mut epoch, writer);
    stack.push(22, &mut epoch, writer);

    // the reader pins and reads the pointer to the top node
    let guard = pin(&mut epoch, reader);
    let top = stack.top(&guard).unwrap();
    assert_eq!(stack.read(top, &epoch.heap), Some(&22));

    // the writer unlinks that node and tries hard to get it freed
    assert_eq!(stack.try_pop(&mut epoch, writer), Some(22));
    assert_eq!(epoch.heap.state_of(top.as_raw()), CellState::Retired);
    for _ in 0..10 {
        try_gc(&mut epoch, writer);
        stack.push(5, &mut epoch, writer);
        assert_eq!(stack.try_pop(&mut epoch, writer), Some(5));
        // the node is still there, though its item is gone
        assert!(epoch.heap.is_allocated(top.as_raw()));
        assert_eq!(epoch.heap.state_of(top.as_raw()), CellState::Retired);
        assert_eq!(stack.read(top, &epoch.heap), None);
    }
    // the epoch is at most one ahead of the pinned reader
    assert!(epoch.epoch <= local_epoch(&epoch, reader) + 1);

    // once the reader unpins, two advances free the node
    guard.release(&mut epoch);
    for _ in 0..3 {
        assert_eq!(try_gc(&mut epoch, writer).unwrap().1, true);
    }
    assert!(!epoch.heap.is_allocated(top.as_raw()));
}

#[test]
fn every_popped_node_is_freed_once_after_a_final_collection() {
    const M: usize = 1000;
    let mut epoch = EpochState::new();
    let me = epoch.enroll();
    let before = allocated_cells(&epoch.heap);
    let mut stack: TreiberStack<usize> = TreiberStack::new();
    let mut peak = 0;
    for i in 0..M {
        let g = pin(&mut epoch, me);
        stack.push(i, &mut epoch, me);
        stack.push(i + M, &mut epoch, me);
        assert_eq!(stack.try_pop(&mut epoch, me), Some(i + M));
        g.release(&mut epoch);
        let now = allocated_cells(&epoch.heap);
        if now > peak {
            peak = now;
        }
    }
    for i in (0..M).rev() {
        assert_eq!(stack.try_pop(&mut epoch, me), Some(i));
    }
    assert_eq!(stack.try_pop(&mut epoch, me), None);
    // force what is left through the epochs
    for _ in 0..4 {
        assert_eq!(try_gc(&mut epoch, me).unwrap().1, true);
    }
    // 2 * M nodes were allocated and every one was freed: only the
    // participant record is left
    assert_eq!(allocated_cells(&epoch.heap), before);
    assert_eq!(garbage_size(&epoch, me), 0);
    // garbage was collected on the way, too
    assert!(peak < M + 200);
}

#[test]
fn records_of_threads_that_left_are_taken_off_the_list() {
    let mut epoch = EpochState::new();
    let mut short_lived = Vec::new();
    let first = epoch.enroll();
    for _ in 0..100 {
        short_lived.push(epoch.enroll());
    }
    let long_lived = epoch.enroll();
    epoch.leave(first);
    short_lived.push(first);
    // the short-lived threads enrolled before and after the long-lived one
    for _ in 0..20 {
        short_lived.push(epoch.enroll());
    }
    let short_lived: Vec<usize> = short_lived;
    assert_eq!(epoch.participants.addresses(&epoch.heap).len(), 122);
    for t in short_lived.iter() {
        if *t != first {
            let g = pin(&mut epoch, *t);
            g.release(&mut epoch);
            epoch.leave(*t);
        }
    }
    // they are inactive but on the list still
    assert_eq!(epoch.participants.addresses(&epoch.heap).len(), 122);
    assert_eq!(try_gc(&mut epoch, long_lived).unwrap().1, true);
    assert_eq!(epoch.participants.addresses(&epoch.heap), vec![long_lived]);
    // their records were handed to the collector as garbage ...
    for t in short_lived.iter() {
        assert_eq!(epoch.heap.state_of(*t), CellState::Retired);
    }
    // ... and are freed two epochs on
    for _ in 0..3 {
        try_gc(&mut epoch, long_lived);
    }
    for t in short_lived.iter() {
        assert!(!epoch.heap.is_allocated(*t));
    }
    assert_eq!(allocated_cells(&epoch.heap), 1);
}

#[test]
fn a_record_at_the_head_of_the_list_is_taken_off_too() {
    let mut epoch = EpochState::new();
    let long_lived = epoch.enroll();
    let short = epoch.enroll();
    epoch.leave(short);
    assert_eq!(epoch.participants.addresses(&epoch.heap), vec![short, long_lived]);
    // the record of the thread that left is the first on the list
    assert_eq!(try_gc(&mut epoch, long_lived).unwrap().1, true);
    assert_eq!(epoch.participants.addresses(&epoch.heap), vec![long_lived]);
    assert_eq!(epoch.heap.state_of(short), CellState::Retired);
    // so is one between two living threads, and one at the end
    let last = epoch.enroll();
    let middle = epoch.enroll();
    let newcomer = epoch.enroll();
    epoch.leave(middle);
    assert_eq!(try_gc(&mut epoch, newcomer).unwrap().1, true);
    assert_eq!(epoch.participants.addresses(&epoch.heap), vec![newcomer, last, long_lived]);
    epoch.leave(long_lived);
    assert_eq!(try_gc(&mut epoch, newcomer).unwrap().1, true);
    assert_eq!(epoch.participants.addresses(&epoch.heap), vec![newcomer, last]);
}

#[test]
fn an_address_is_not_reused_while_a_pinned_reader_may_hold_it() {
    let mut epoch = EpochState::new();
    let reader = epoch.enroll();
    let writer = epoch.enroll();
    let mut stack: TreiberStack<u32> = TreiberStack::new();
    for round in 0..50u32 {
        stack.push(round, &mut epoch, writer);
        let guard = pin(&mut epoch, reader);
        let seen = stack.top(&guard).unwrap();
        assert_eq!(stack.try_pop(&mut epoch, writer), Some(round));
        // the writer churns: every new node gets an address, none of them
        // the one that the reader holds
        for k in 0..20 {
            try_gc(&mut epoch, writer);
            stack.push(1000 + k, &mut epoch, writer);
            let fresh = stack.top(&guard).unwrap();
            assert!(fresh.as_raw() != seen.as_raw());
            assert_eq!(stack.try_pop(&mut epoch, writer), Some(1000 + k));
        }
        // a compare-and-set on the address that the reader saw fails: the
        // head is null, not that node
        assert!(stack.top(&guard).is_none());
        guard.release(&mut epoch);
    }
    // addresses do get reused once nobody can hold them
    assert!(epoch.heap.high_water() < 200);
}

#[test]
fn a_pin_collects_when_more_than_the_threshold_is_held() {
    let mut epoch = EpochState::new();
    let me = epoch.enroll();
    let mut stack: TreiberStack<u8> = TreiberStack::new();
    // the operations pin themselves; keep an outer pin to see the count
    for _ in 0..32 {
        stack.push(0, &mut epoch, me);
    }
    let start = epoch.epoch;
    for _ in 0..32 {
        stack.try_pop(&mut epoch, me);
    }
    assert_eq!(garbage_size(&epoch, me), 32);
    assert_eq!(epoch.epoch, start);
    stack.push(0, &mut epoch, me);
    stack.try_pop(&mut epoch, me);
    assert_eq!(garbage_size(&epoch, me), 33);
    // 33 > 32: the next pin advances the epoch and rotates the bags
    let g = pin(&mut epoch, me);
    assert_eq!(epoch.epoch, start + 1);
    assert_eq!(local_epoch(&epoch, me), start + 1);
    assert_eq!(garbage_size(&epoch, me), 33);
    g.release(&mut epoch);
}

#[test]
fn a_pin_that_may_not_collect_migrates_beyond_its_threshold() {
    let mut epoch = EpochState::new();
    let me = epoch.enroll();
    let mut stack: TreiberStack<u8> = TreiberStack::new();
    let scope = __get_gc_guard_for(&mut epoch, me, false);
    for _ in 0..128 {
        stack.push(0, &mut epoch, me);
        stack.try_pop(&mut epoch, me);
    }
    assert_eq!(garbage_size(&epoch, me), 128);
    assert_eq!(epoch.has_garbage(), false);
    // a pin that never moves garbage
    let g = pin_waitfree(&mut epoch, me);
    g.release(&mut epoch);
    stack.push(0, &mut epoch, me);
    stack.try_pop(&mut epoch, me);
    assert_eq!(garbage_size(&epoch, me), 129);
    // 129 > 128: the next pin moves the garbage to the global bags
    let g = pin(&mut epoch, me);
    assert_eq!(garbage_size(&epoch, me), 0);
    assert_eq!(epoch.has_garbage(), true);
    assert_eq!(epoch.do_global, true);
    assert_eq!(epoch.epoch, 0);
    // at local and global epoch 0 the old bag went to bag 2, the current
    // and the new bag to bag 0
    assert_eq!(epoch.garbage[0].has_garbage(), true);
    assert_eq!(epoch.garbage[1].has_garbage(), false);
    assert_eq!(epoch.garbage[2].has_garbage(), true);
    g.release(&mut epoch);
    scope.restore(&mut epoch);
    let cells = allocated_cells(&epoch.heap);
    assert_eq!(cells, 1 + 129);
    // the global bags are freed as the epoch advances
    for _ in 0..3 {
        assert_eq!(try_gc(&mut epoch, me).unwrap().1, true);
    }
    assert_eq!(allocated_cells(&epoch.heap), 1);
    assert_eq!(epoch.has_garbage(), false);
    assert_eq!(epoch.do_global, false);
}

#[test]
fn gc_if_needed_collects_only_when_due() {
    let mut epoch = EpochState::new();
    let me = epoch.enroll();
    let mut g = pin_waitfree(&mut epoch, me);
    assert_eq!(Participant::gc_if_needed(&mut epoch, &mut g), false);
    assert_eq!(epoch.epoch, 0);
    epoch.do_global = true;
    assert_eq!(Participant::gc_if_needed(&mut epoch, &mut g), true);
    assert_eq!(epoch.epoch, 1);
    // nothing is in the global bags: the flag is down again
    assert_eq!(epoch.do_global, false);
    assert_eq!(Participant::try_collect(&mut epoch, &mut g), true);
    assert_eq!(epoch.epoch, 2);
    g.release(&mut epoch);
}

#[test]
fn a_thread_that_leaves_donates_its_garbage() {
    let mut epoch = EpochState::new();
    let leaves = epoch.enroll();
    let stays = epoch.enroll();
    let mut stack: TreiberStack<u8> = TreiberStack::new();
    for _ in 0..5 {
        stack.push(1, &mut epoch, leaves);
    }
    for _ in 0..5 {
        stack.try_pop(&mut epoch, leaves);
    }
    assert_eq!(garbage_size(&epoch, leaves), 5);
    epoch.leave(leaves);
    assert_eq!(garbage_size(&epoch, leaves), 0);
    assert_eq!(epoch.participants.get(leaves, &epoch.heap).active, false);
    assert_eq!(epoch.has_garbage(), true);
    for _ in 0..4 {
        try_gc(&mut epoch, stays);
    }
    // the five nodes and the record of the thread that left are gone
    assert_eq!(allocated_cells(&epoch.heap), 1);
}

#[test]
fn a_nested_pin_only_counts() {
    let mut epoch = EpochState::new();
    let me = epoch.enroll();
    let mut stack: TreiberStack<u8> = TreiberStack::new();
    let outer = pin(&mut epoch, me);
    // the operations pin, nested in the outer pin: garbage piles up and
    // the epoch stays, however much there is
    for _ in 0..200 {
        stack.push(0, &mut epoch, me);
        stack.try_pop(&mut epoch, me);
    }
    assert_eq!(garbage_size(&epoch, me), 200);
    assert_eq!(epoch.epoch, 0);
    let inner = pin(&mut epoch, me);
    assert_eq!(epoch.epoch, 0);
    assert_eq!(local_epoch(&epoch, me), 0);
    assert_eq!(allocated_cells(&epoch.heap), 201);
    let nogc = pin_nogc(&mut epoch, me);
    assert_eq!(garbage_size(&epoch, me), 200);
    nogc.release(&mut epoch);
    inner.release(&mut epoch);
    outer.release(&mut epoch);
    // the next pin is a first pin again
    let g = pin(&mut epoch, me);
    assert_eq!(epoch.epoch, 1);
    g.release(&mut epoch);
}

#[test]
fn migrated_bags_go_to_the_global_bags_of_their_epochs() {
    let mut epoch = EpochState::new();
    let me = epoch.enroll();
    let other = epoch.enroll();
    // bring the global epoch to 4 while `me` is pinned at 3
    for _ in 0..3 {
        assert_eq!(try_gc(&mut epoch, other).unwrap().1, true);
    }
    let g = pin_waitfree(&mut epoch, me);
    assert_eq!(try_gc(&mut epoch, other).unwrap().1, true);
    assert_eq!((local_epoch(&epoch, me), epoch.epoch), (3, 4));
    g.migrate_garbage(&mut epoch);
    // old: bag (3 - 1) % 3 = 2, current: bag 3 % 3 = 0, new: bag 4 % 3 = 1
    assert_eq!(epoch.garbage[0].has_garbage(), true);
    assert_eq!(epoch.garbage[1].has_garbage(), true);
    assert_eq!(epoch.garbage[2].has_garbage(), true);
    g.release(&mut epoch);
    // the advance to epoch 5 frees bag (5 + 1) % 3 = 0
    assert_eq!(try_gc(&mut epoch, other), Some((false, true)));
    assert_eq!(epoch.epoch, 5);
    assert_eq!(epoch.garbage[0].has_garbage(), false);
    assert_eq!(epoch.garbage[1].has_garbage(), true);
    assert_eq!(epoch.garbage[2].has_garbage(), true);
    assert_eq!(try_gc(&mut epoch, other), Some((false, true)));
    assert_eq!(epoch.garbage[1].has_garbage(), false);
    assert_eq!(try_gc(&mut epoch, other), Some((false, true)));
    assert_eq!(epoch.has_garbage(), false);
}

#[test]
fn the_epoch_wraps_and_collection_goes_on() {
    let modulus = crossbeam::mem::epoch::participant::epoch_modulus();
    assert_eq!(modulus % 3, 0);
    assert!(modulus >= usize::MAX - 2);
    let mut epoch = EpochState::aged(usize::MAX - 2);
    let start = epoch.epoch;
    assert_eq!(start, (usize::MAX - 2) % modulus);
    let me = epoch.enroll();
    let other = epoch.enroll();
    let mut s: TreiberStack<u64> = TreiberStack::new();
    let mut words = vec![epoch.epoch];
    for round in 0..12u64 {
        s.push(round, &mut epoch, me);
        assert_eq!(s.try_pop(&mut epoch, other), Some(round));
        // every attempt advances: nobody is pinned
        assert_eq!(try_gc(&mut epoch, me).unwrap().1, true);
        words.push(epoch.epoch);
        assert_eq!(try_gc(&mut epoch, other).unwrap().1, true);
        words.push(epoch.epoch);
    }
    // the counter went round: it came by 0, one step after another
    assert!(words.contains(&0));
    for pair in words.windows(2) {
        assert_eq!(pair[1], if pair[0] + 1 == modulus { 0 } else { pair[0] + 1 });
        // the bag of an epoch follows that of the epoch before
        assert_eq!(pair[1] % 3, (pair[0] % 3 + 1) % 3);
    }
    assert!(epoch.epoch < start);
    // what was popped was freed on the way: only the two records and
    // what the last rounds retired are allocated
    assert!(allocated_cells(&epoch.heap) <= 2 + 3);
    for _ in 0..3 {
        try_gc(&mut epoch, me);
        try_gc(&mut epoch, other);
    }
    assert_eq!(allocated_cells(&epoch.heap), 2);
}

#[test]
fn an_attempt_that_fails_frees_nothing() {
    let mut epoch = EpochState::new();
    let me = epoch.enroll();
    let other = epoch.enroll();
    let mut s: TreiberStack<u64> = TreiberStack::new();
    for i in 0..10 {
        s.push(i, &mut epoch, me);
    }
    for _ in 0..10 {
        s.try_pop(&mut epoch, me);
    }
    // the other is pinned, and the epoch moves on once under it
    let held = pin_waitfree(&mut epoch, other);
    let mut g = pin_waitfree(&mut epoch, me);
    assert_eq!(Participant::try_collect(&mut epoch, &mut g), true);
    let before = allocated_cells(&epoch.heap);
    let at = epoch.epoch;
    // it cannot move on again
    for _ in 0..5 {
        assert_eq!(Participant::try_collect(&mut epoch, &mut g), false);
        assert_eq!(epoch.epoch, at);
        assert_eq!(allocated_cells(&epoch.heap), before);
    }
    held.release(&mut epoch);
    assert_eq!(Participant::try_collect(&mut epoch, &mut g), true);
    assert_eq!(epoch.epoch, at + 1);
    g.release(&mut epoch);
}

#[test]
fn a_first_pin_at_a_new_epoch_rotates_the_bags() {
    let mut epoch = EpochState::new();
    let me = epoch.enroll();
    let other = epoch.enroll();
    let mut s: TreiberStack<u64> = TreiberStack::new();
    s.push(1, &mut epoch, me);
    assert_eq!(s.try_pop(&mut epoch, me), Some(1));
    let bags = |e: &EpochState| {
        let g = &e.participants.get(me, &e.heap).garbage;
        (g.old.len(), g.cur.len(), g.new.len())
    };
    assert_eq!(bags(&epoch), (0, 0, 1));
    // the other moves the epoch on: the next pin of `me` is at a new epoch
    assert_eq!(try_gc(&mut epoch, other).unwrap().1, true);
    let g = pin(&mut epoch, me);
    assert_eq!(bags(&epoch), (0, 1, 0));
    // a nested pin only counts
    let nested = pin(&mut epoch, me);
    assert_eq!(bags(&epoch), (0, 1, 0));
    nested.release(&mut epoch);
    g.release(&mut epoch);
    assert_eq!(try_gc(&mut epoch, other).unwrap().1, true);
    let g = pin(&mut epoch, me);
    assert_eq!(bags(&epoch), (1, 0, 0));
    g.release(&mut epoch);
    let cells = allocated_cells(&epoch.heap);
    assert_eq!(try_gc(&mut epoch, other).unwrap().1, true);
    let g = pin(&mut epoch, me);
    assert_eq!(bags(&epoch), (0, 0, 0));
    assert_eq!(allocated_cells(&epoch.heap), cells - 1);
    g.release(&mut epoch);
}

#[test]
fn a_local_collection_takes_over_the_epoch_and_frees_the_old_bag() {
    let mut epoch = EpochState::new();
    let me = epoch.enroll();
    let other = epoch.enroll();
    let mut s: TreiberStack<u64> = TreiberStack::new();
    s.push(1, &mut epoch, me);
    assert_eq!(s.try_pop(&mut epoch, me), Some(1));
    let bags = |e: &EpochState| {
        let g = &e.participants.get(me, &e.heap).garbage;
        (g.old.len(), g.cur.len(), g.new.len())
    };
    assert_eq!(bags(&epoch), (0, 0, 1));
    // at the same epoch nothing moves
    assert_eq!(try_local_gc(&mut epoch, me), Some(false));
    assert_eq!(bags(&epoch), (0, 0, 1));
    let cells = allocated_cells(&epoch.heap);
    for want in [(0, 1, 0), (1, 0, 0)] {
        assert_eq!(try_gc(&mut epoch, other).unwrap().1, true);
        assert_eq!(local_epoch(&epoch, me) + 1, epoch.epoch);
        assert_eq!(try_local_gc(&mut epoch, me), Some(false));
        assert_eq!(local_epoch(&epoch, me), epoch.epoch);
        assert_eq!(bags(&epoch), want);
        assert_eq!(allocated_cells(&epoch.heap), cells);
    }
    // the third time the node is in the old bag, and is freed
    assert_eq!(try_gc(&mut epoch, other).unwrap().1, true);
    let at = epoch.epoch;
    assert_eq!(try_local_gc(&mut epoch, me), Some(false));
    assert_eq!(epoch.epoch, at);
    assert_eq!(bags(&epoch), (0, 0, 0));
    assert_eq!(allocated_cells(&epoch.heap), cells - 1);
    // switched off, it does nothing
    let off = __get_gc_guard_for(&mut epoch, me, false);
    assert_eq!(try_local_gc(&mut epoch, me), None);
    off.restore(&mut epoch);
}
