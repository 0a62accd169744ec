use crossbeam::sync::spsc_bufferqueue::SpscBufferQueue;
use std::sync::atomic::AtomicUsize;
use std::sync::atomic::Ordering::Relaxed;

#[test]
fn spsc_bufferqueue_push_pop_1() {
    let (mut q, prod, cons) = SpscBufferQueue::<i64>::new(1000);
    assert_eq!(prod.try_push(&mut q, 37), None);
    assert_eq!(cons.try_pop(&mut q), Some(37));
    assert_eq!(cons.try_pop(&mut q), None)
}

#[test]
fn spsc_bufferqueue_push_pop_2() {
    let (mut q, prod, cons) = SpscBufferQueue::<i64>::new(1000);
    assert_eq!(prod.try_push(&mut q, 37), None);
    assert_eq!(prod.try_construct(&mut q, || 48), true);
    assert_eq!(cons.try_pop(&mut q), Some(37));
    assert_eq!(cons.try_pop(&mut q), Some(48));
    assert_eq!(cons.try_pop(&mut q), None)
}

#[test]
fn spsc_bufferqueue_push_pop_many_seq() {
    let (mut q, prod, cons) = SpscBufferQueue::<i64>::new(1000);
    for i in 0..200 {
        assert_eq!(prod.try_push(&mut q, i), None);
    }
    for i in 0..200 {
        assert_eq!(cons.try_pop(&mut q), Some(i));
    }
}

#[test]
fn push_bounded() {
    let msize = 100;
    let (mut q, prod, cons) = SpscBufferQueue::<i64>::new(msize);
    for _ in 0..msize {
        assert_eq!(prod.try_push(&mut q, 1), None);
    }
    assert_eq!(prod.try_push(&mut q, 2), Some(2));
    assert_eq!(cons.try_pop(&mut q), Some(1));
    assert_eq!(prod.try_push(&mut q, 2), None);
    for _ in 0..(msize - 1) {
        assert_eq!(cons.try_pop(&mut q), Some(1));
    }
    assert_eq!(cons.try_pop(&mut q), Some(2));
}

struct Dropper<'a> {
    aref: &'a AtomicUsize,
}

impl<'a> Drop for Dropper<'a> {
    fn drop(&mut self) {
        self.aref.fetch_add(1, Relaxed);
    }
}

#[test]
fn spsc_bufferqueue_drop_on_dtor() {
    let msize = 100;
    let drop_count = AtomicUsize::new(0);
    {
        let (mut q, prod, _) = SpscBufferQueue::<Dropper>::new(msize);
        for _ in 0..msize {
            prod.try_push(&mut q, Dropper { aref: &drop_count });
        }
    }
    assert_eq!(drop_count.load(Relaxed), msize);
}

#[test]
fn drop_on_fail() {
    let drop_count = AtomicUsize::new(0);
    let (mut q, prod, _) = SpscBufferQueue::<Dropper>::new(0);
    // there is no room: the value comes back and is dropped here
    let back = prod.try_push(&mut q, Dropper { aref: &drop_count });
    assert!(back.is_some());
    drop(back);
    assert_eq!(drop_count.load(Relaxed), 1);
}

// The producer and the consumer take turns in one thread.
#[test]
fn spsc_bufferqueue_push_pop_many_spsc() {
    const CONC_COUNT: i64 = 1000000;
    let qsize = 100;
    let (mut q, prod, cons) = SpscBufferQueue::<i64>::new(qsize);
    let mut next = 0;
    let mut i = 0;
    while next < CONC_COUNT {
        // the producer pushes until the ring is full
        while i < CONC_COUNT {
            match prod.try_push(&mut q, i) {
                Some(_) => break,
                None => {
                    i += 1;
                }
            }
        }
        // the consumer takes some of what is there
        let mut taken = 0;
        while taken < 37 {
            match cons.try_pop(&mut q) {
                Some(elem) => {
                    assert_eq!(elem, next);
                    next += 1;
                    taken += 1;
                }
                None => break,
            }
        }
    }
    assert_eq!(next, CONC_COUNT);
}

#[test]
fn test_capacity() {
    let qsize = 100;
    let (mut q, prod, cons) = SpscBufferQueue::<i64>::new(qsize);
    assert_eq!(prod.capacity(&q), qsize);
    assert_eq!(cons.capacity(&q), qsize);
    for _ in 0..(qsize / 2) {
        prod.try_push(&mut q, 1);
    }
    assert_eq!(prod.capacity(&q), qsize);
    assert_eq!(cons.capacity(&q), qsize);
}

#[test]
fn spsc_bufferqueue_test_life_queries() {
    let (mut q, prod, cons) = SpscBufferQueue::<i64>::new(1);
    assert_eq!(prod.is_consumer_alive(&q), true);
    assert_eq!(cons.is_producer_alive(&q), true);
    {
        let x = cons;
        assert_eq!(prod.is_consumer_alive(&q), true);
        assert_eq!(prod.create_consumer(&mut q).is_none(), true);
        x.disconnect(&mut q);
    }
    assert_eq!(prod.is_consumer_alive(&q), false);
    let new_cons_o = prod.create_consumer(&mut q);
    assert_eq!(prod.is_consumer_alive(&q), true);
    assert_eq!(new_cons_o.is_some(), true);
    assert_eq!(prod.create_consumer(&mut q).is_none(), true);
    let new_cons = new_cons_o.unwrap();

    {
        let x = prod;
        assert_eq!(new_cons.is_producer_alive(&q), true);
        assert_eq!(new_cons.create_producer(&mut q).is_none(), true);
        x.disconnect(&mut q);
    }
    assert_eq!(new_cons.is_producer_alive(&q), false);
    let new_prod = new_cons.create_producer(&mut q);
    assert_eq!(new_prod.is_some(), true);
    assert_eq!(new_cons.create_producer(&mut q).is_none(), true);
}

#[test]
fn spsc_bufferqueue_wraps_around() {
    let (mut q, prod, cons) = SpscBufferQueue::<u32>::new(3);
    let mut next_in = 0;
    let mut next_out = 0;
    for _ in 0..50 {
        while prod.try_push(&mut q, next_in).is_none() {
            next_in += 1;
        }
        // three fit, the fourth came back
        assert_eq!(next_in - next_out, 3);
        assert_eq!(cons.try_pop(&mut q), Some(next_out));
        next_out += 1;
        assert_eq!(cons.try_pop(&mut q), Some(next_out));
        next_out += 1;
    }
}

#[test]
fn spsc_bufferqueue_full_ring_does_not_call_the_constructor() {
    let (mut q, prod, _cons) = SpscBufferQueue::<u32>::new(1);
    assert_eq!(prod.try_construct(&mut q, || 1), true);
    let called = std::cell::Cell::new(false);
    assert_eq!(
        prod.try_construct(&mut q, || {
            called.set(true);
            2
        }),
        false
    );
    assert_eq!(called.get(), false);
    assert_eq!(q.try_push(9), Err(9));
    assert_eq!(q.capacity(), 1);
}

#[test]
fn spsc_bufferqueue_hands_back_when_the_consumer_left() {
    let (mut q, prod, cons) = SpscBufferQueue::<i64>::new(10);
    assert_eq!(prod.try_push(&mut q, 1), None);
    cons.disconnect(&mut q);
    assert_eq!(prod.try_push(&mut q, 2), Some(2));
    assert_eq!(prod.try_construct(&mut q, || 3), false);
    let again = prod.create_consumer(&mut q).unwrap();
    assert_eq!(prod.try_push(&mut q, 4), None);
    assert_eq!(again.try_pop(&mut q), Some(1));
    assert_eq!(again.try_pop(&mut q), Some(4));
    assert_eq!(again.try_pop(&mut q), None);
}

#[test]
fn spsc_bufferqueue_capacity_is_clipped() {
    let (q, prod, _cons) = SpscBufferQueue::<u8>::new(0);
    assert_eq!(prod.capacity(&q), 0);
    let (mut q, prod, cons) = SpscBufferQueue::<u8>::new(1);
    assert_eq!(cons.capacity(&q), 1);
    assert_eq!(prod.try_push(&mut q, 1), None);
    assert_eq!(prod.try_push(&mut q, 2), Some(2));
}
