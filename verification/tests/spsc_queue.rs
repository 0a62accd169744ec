use crossbeam::sync::spsc_queue::SpscQueue;
use std::sync::atomic::AtomicUsize;
use std::sync::atomic::Ordering::Relaxed;

#[test]
fn push_pop_1_b() {
    let (mut q, prod, cons) = SpscQueue::<i64>::new();
    assert_eq!(prod.try_push(&mut q, 37), Ok(()));
    assert_eq!(cons.try_pop(&mut q), Some(37));
    assert_eq!(cons.try_pop(&mut q), None)
}

#[test]
fn push_pop_2_b() {
    let (mut q, prod, cons) = SpscQueue::<i64>::new();
    assert_eq!(prod.try_push(&mut q, 37).is_ok(), true);
    assert_eq!(prod.try_construct(&mut q, || 48).is_ok(), true);
    assert_eq!(cons.try_pop(&mut q), Some(37));
    assert_eq!(cons.try_pop(&mut q), Some(48));
    assert_eq!(cons.try_pop(&mut q), None)
}

#[test]
fn spsc_queue_push_pop_many_seq() {
    let (mut q, prod, cons) = SpscQueue::<i64>::new();
    for i in 0..200 {
        assert_eq!(prod.try_push(&mut q, i).is_ok(), true);
    }
    for i in 0..200 {
        assert_eq!(cons.try_pop(&mut q), Some(i));
    }
}

struct Dropper<'a> {
    aref: &'a AtomicUsize,
}

impl<'a> Drop for Dropper<'a> {
    fn drop(&mut self) {
        self.aref.fetch_add(1, Relaxed);
    }
}

#[test]
fn spsc_queue_drop_on_dtor() {
    let msize = 100;
    let drop_count = AtomicUsize::new(0);
    {
        let (mut q, prod, _) = SpscQueue::new();
        for _ in 0..msize {
            let _ = prod.try_push(&mut q, Dropper { aref: &drop_count });
        }
    }
    assert_eq!(drop_count.load(Relaxed), msize);
}

// The producer and the consumer take turns in one thread; whoever has the
// turn works until the queue stops it or its batch is done.
#[test]
fn spsc_queue_push_pop_many_spsc() {
    const CONC_COUNT: i64 = 10000000;
    let (mut q, prod, cons) = SpscQueue::<i64>::new();
    let mut next = 0;
    let mut i = 0;
    let mut batch = 1;
    while next < CONC_COUNT {
        let mut sent = 0;
        while i < CONC_COUNT && sent < batch {
            match prod.try_push(&mut q, i) {
                Err(_) => break,
                Ok(_) => {
                    i += 1;
                    sent += 1;
                }
            }
        }
        let mut taken = 0;
        while taken < batch / 2 + 1 {
            match cons.try_pop(&mut q) {
                Some(elem) => {
                    assert_eq!(elem, next);
                    next += 1;
                    taken += 1;
                }
                None => break,
            }
        }
        batch = batch % 200 + 1;
    }
    assert_eq!(next, CONC_COUNT);
    assert_eq!(cons.try_pop(&mut q), None);
}

#[test]
fn spsc_queue_test_life_queries() {
    let (mut q, prod, cons) = SpscQueue::<i64>::new();
    assert_eq!(prod.is_consumer_alive(&q), true);
    assert_eq!(cons.is_producer_alive(&q), true);
    assert_eq!(prod.try_push(&mut q, 1), Ok(()));
    {
        let x = cons;
        assert_eq!(prod.is_consumer_alive(&q), true);
        assert_eq!(prod.create_consumer(&mut q).is_none(), true);
        x.disconnect(&mut q);
    }
    assert_eq!(prod.is_consumer_alive(&q), false);
    assert_eq!(prod.try_push(&mut q, 1), Err(1));
    let new_cons_o = prod.create_consumer(&mut q);
    assert_eq!(prod.is_consumer_alive(&q), true);
    assert_eq!(new_cons_o.is_some(), true);
    assert_eq!(prod.create_consumer(&mut q).is_none(), true);
    let new_cons = new_cons_o.unwrap();
    {
        let x = prod;
        assert_eq!(new_cons.is_producer_alive(&q), true);
        assert_eq!(new_cons.create_producer(&mut q).is_none(), true);
        x.disconnect(&mut q);
    }
    assert_eq!(new_cons.is_producer_alive(&q), false);
    assert_eq!(new_cons.try_pop(&mut q), Some(1));
    let new_prod = new_cons.create_producer(&mut q);
    assert_eq!(new_prod.is_some(), true);
    assert_eq!(new_cons.create_producer(&mut q).is_none(), true);
}

#[test]
fn spsc_queue_sends_a_million_in_order() {
    let (mut q, prod, cons) = SpscQueue::<u64>::new();
    let mut received: u64 = 0;
    let mut sent: u64 = 0;
    while received < 1_000_000 {
        // a burst of pushes, then the consumer drains what is there
        let burst = 1 + (sent % 97);
        let mut k = 0;
        while k < burst && sent < 1_000_000 {
            assert_eq!(prod.try_push(&mut q, sent), Ok(()));
            sent += 1;
            k += 1;
        }
        while let Some(v) = cons.try_pop(&mut q) {
            assert_eq!(v, received);
            received += 1;
        }
    }
    assert_eq!(received, 1_000_000);
}

#[test]
fn spsc_queue_crosses_segments_and_reuses_them() {
    let (mut q, prod, cons) = SpscQueue::<usize>::new();
    // the first segment holds the numbers 1 to 63: the 64th item opens a
    // second one
    for round in 0..10 {
        for i in 0..300 {
            assert_eq!(prod.try_push(&mut q, round * 1000 + i), Ok(()));
        }
        for i in 0..300 {
            assert_eq!(cons.try_pop(&mut q), Some(round * 1000 + i));
        }
        assert_eq!(cons.try_pop(&mut q), None);
    }
    // the queue has no set capacity
    assert_eq!(prod.capacity(&q), 0);
    assert_eq!(cons.capacity(&q), 0);
}

#[test]
fn spsc_queue_try_construct_hands_back_when_consumer_left() {
    let (mut q, prod, cons) = SpscQueue::<i64>::new();
    cons.disconnect(&mut q);
    let made = std::cell::Cell::new(false);
    let r = prod.try_construct(&mut q, || {
        made.set(true);
        7
    });
    assert!(r.is_err());
    assert_eq!(made.get(), false);
}

#[test]
fn spsc_queue_gives_drained_segments_back() {
    let (mut q, prod, cons) = SpscQueue::<usize>::new();
    let held = |q: &SpscQueue<usize>| (0..64).filter(|a| q.holds_segment(*a)).count();
    assert_eq!(held(&q), 1);
    assert_eq!(q.holds_segment(0), false);
    assert!(q.holds_segment(1));
    // ten segments are needed to hold 600 items at once
    for i in 0..600 {
        assert_eq!(prod.try_push(&mut q, i), Ok(()));
    }
    assert_eq!(held(&q), 10);
    for i in 0..600 {
        assert_eq!(cons.try_pop(&mut q), Some(i));
    }
    // one segment is in use, three are kept as spares, the others went
    // back to the allocator
    assert_eq!(held(&q), 4);
    // items are numbered from 1, and item `c` lives in segment `c / 64`
    let mut sent = 600;
    for round in 0..5 {
        let first = sent / 64;
        for i in 0..600 {
            assert_eq!(prod.try_push(&mut q, round * 1000 + i), Ok(()));
        }
        sent += 600;
        assert_eq!(held(&q), sent / 64 - first + 1);
        for i in 0..600 {
            assert_eq!(cons.try_pop(&mut q), Some(round * 1000 + i));
        }
        assert_eq!(held(&q), 4);
    }
}
