use crossbeam::mem::epoch::global::EpochState;
use crossbeam::sync::seg_queue::SegQueue;

#[test]
fn seg_queue_push_pop_1() {
    let mut epoch = EpochState::new();
    let me = epoch.enroll();
    let mut q: SegQueue<i64> = SegQueue::new(&mut epoch, me);
    q.push(37, &mut epoch, me);
    assert_eq!(q.try_pop(&mut epoch, me), Some(37));
}

#[test]
fn seg_queue_push_pop_2() {
    let mut epoch = EpochState::new();
    let me = epoch.enroll();
    let mut q: SegQueue<i64> = SegQueue::new(&mut epoch, me);
    q.push(37, &mut epoch, me);
    q.push(48, &mut epoch, me);
    assert_eq!(q.try_pop(&mut epoch, me), Some(37));
    assert_eq!(q.try_pop(&mut epoch, me), Some(48));
}

#[test]
fn seg_queue_push_pop_many_seq() {
    let mut epoch = EpochState::new();
    let me = epoch.enroll();
    let mut q: SegQueue<i64> = SegQueue::new(&mut epoch, me);
    for i in 0..200 {
        q.push(i, &mut epoch, me)
    }
    for i in 0..200 {
        assert_eq!(q.try_pop(&mut epoch, me), Some(i));
    }
}

// One producer and one consumer, each with its own participant record,
// take turns in one thread.
#[test]
fn seg_queue_push_pop_many_spsc() {
    const CONC_COUNT: i64 = 1000000;
    let mut epoch = EpochState::new();
    let producer = epoch.enroll();
    let consumer = epoch.enroll();
    let mut q: SegQueue<i64> = SegQueue::new(&mut epoch, producer);
    let mut next = 0;
    let mut i = 0;
    while next < CONC_COUNT {
        let burst = 1 + (i % 71);
        let mut k = 0;
        while k < burst && i < CONC_COUNT {
            q.push(i, &mut epoch, producer);
            i += 1;
            k += 1;
        }
        let mut taken = 0;
        while taken < 50 {
            match q.try_pop(&mut epoch, consumer) {
                Some(elem) => {
                    assert_eq!(elem, next);
                    next += 1;
                    taken += 1;
                }
                None => break,
            }
        }
    }
    assert_eq!(next, CONC_COUNT);
}

// One producer and three consumers take turns in one thread. Every
// consumer sees its items in rising order, and together they see every
// item once.
#[test]
fn seg_queue_push_pop_many_spmc() {
    const CONC_COUNT: i64 = 1000000;
    let mut epoch = EpochState::new();
    let producer = epoch.enroll();
    let consumers = [epoch.enroll(), epoch.enroll(), epoch.enroll()];
    let mut q: SegQueue<i64> = SegQueue::new(&mut epoch, producer);
    let mut cur = [-1i64; 3];
    let mut seen = vec![false; CONC_COUNT as usize];
    let mut count = 0;
    let mut i = 0;
    let mut turn = 0;
    while count < CONC_COUNT {
        let mut k = 0;
        while k < 40 && i < CONC_COUNT {
            q.push(i, &mut epoch, producer);
            i += 1;
            k += 1;
        }
        for t in 0..3 {
            let quota = 5 + (turn + t) % 23;
            let mut taken = 0;
            while taken < quota {
                match q.try_pop(&mut epoch, consumers[t]) {
                    Some(elem) => {
                        assert!(elem > cur[t]);
                        cur[t] = elem;
                        assert!(!seen[elem as usize]);
                        seen[elem as usize] = true;
                        count += 1;
                        taken += 1;
                    }
                    None => break,
                }
            }
        }
        turn += 1;
    }
    assert!(seen.iter().all(|s| *s));
    assert_eq!(q.try_pop(&mut epoch, consumers[0]), None);
}

#[derive(Debug, PartialEq)]
enum LR {
    Left(i64),
    Right(i64),
}

// Two producers and a consumer take turns in one thread: what each
// producer pushed comes out in the order in which it pushed it.
#[test]
fn push_pop_many_mpmc() {
    const CONC_COUNT: i64 = 1000000;
    let mut epoch = EpochState::new();
    let left = epoch.enroll();
    let right = epoch.enroll();
    let consumer = epoch.enroll();
    let mut q: SegQueue<LR> = SegQueue::new(&mut epoch, left);
    let mut vl = vec![];
    let mut vr = vec![];
    for _t in 0..2 {
        for i in CONC_COUNT - 1..CONC_COUNT {
            q.push(LR::Left(i), &mut epoch, left)
        }
        for i in CONC_COUNT - 1..CONC_COUNT {
            q.push(LR::Right(i), &mut epoch, right)
        }
        for _i in 0..100 {
            match q.try_pop(&mut epoch, consumer) {
                Some(LR::Left(x)) => vl.push(x),
                Some(LR::Right(x)) => vr.push(x),
                _ => {}
            }
        }
    }
    let mut vl2 = vl.clone();
    let mut vr2 = vr.clone();
    vl2.sort();
    vr2.sort();
    assert_eq!(vl, vl2);
    assert_eq!(vr, vr2);
    assert_eq!(vl.len(), 2);
    assert_eq!(vr.len(), 2);
}

#[test]
fn seg_queue_per_producer_order_with_interleaved_producers() {
    let mut epoch = EpochState::new();
    let a = epoch.enroll();
    let b = epoch.enroll();
    let c = epoch.enroll();
    let mut q: SegQueue<(u8, u32)> = SegQueue::new(&mut epoch, a);
    let mut na = 0;
    let mut nb = 0;
    for round in 0..500u32 {
        for _ in 0..(round % 3 + 1) {
            q.push((0, na), &mut epoch, a);
            na += 1;
        }
        for _ in 0..(round % 5 + 1) {
            q.push((1, nb), &mut epoch, b);
            nb += 1;
        }
    }
    let mut ea = 0;
    let mut eb = 0;
    while let Some((who, n)) = q.try_pop(&mut epoch, c) {
        if who == 0 {
            assert_eq!(n, ea);
            ea += 1;
        } else {
            assert_eq!(n, eb);
            eb += 1;
        }
    }
    assert_eq!(ea, na);
    assert_eq!(eb, nb);
}

#[test]
fn seg_queue_empty_pop_is_none() {
    let mut epoch = EpochState::new();
    let me = epoch.enroll();
    let mut q: SegQueue<i64> = SegQueue::new(&mut epoch, me);
    assert_eq!(q.try_pop(&mut epoch, me), None);
    // exactly one segment full, then empty again
    for i in 0..32 {
        q.push(i, &mut epoch, me);
    }
    for i in 0..32 {
        assert_eq!(q.try_pop(&mut epoch, me), Some(i));
    }
    assert_eq!(q.try_pop(&mut epoch, me), None);
    q.push(5, &mut epoch, me);
    assert_eq!(q.try_pop(&mut epoch, me), Some(5));
    assert_eq!(q.try_pop(&mut epoch, me), None);
}

#[test]
fn seg_queue_push_bulk_keeps_the_order_across_segments() {
    let mut epoch = EpochState::new();
    let me = epoch.enroll();
    let mut q: SegQueue<usize> = SegQueue::new(&mut epoch, me);
    q.push(1000, &mut epoch, me);
    q.push_bulk((0..100).collect(), &mut epoch, me);
    q.push_bulk(Vec::new(), &mut epoch, me);
    q.push(2000, &mut epoch, me);
    q.push_bulk((100..117).collect(), &mut epoch, me);
    assert_eq!(q.try_pop(&mut epoch, me), Some(1000));
    for i in 0..100 {
        assert_eq!(q.try_pop(&mut epoch, me), Some(i));
    }
    assert_eq!(q.try_pop(&mut epoch, me), Some(2000));
    for i in 100..117 {
        assert_eq!(q.try_pop(&mut epoch, me), Some(i));
    }
    assert_eq!(q.try_pop(&mut epoch, me), None);
}

#[test]
fn seg_queue_segments_are_freed_once_drained() {
    let mut epoch = EpochState::new();
    let me = epoch.enroll();
    let mut q: SegQueue<u64> = SegQueue::new(&mut epoch, me);
    for i in 0..32 * 50 {
        q.push(i, &mut epoch, me);
    }
    let mut cells = 0;
    for a in 1..=epoch.heap.high_water() {
        if epoch.heap.is_allocated(a) {
            cells += 1;
        }
    }
    // the record of the participant and 51 segments
    assert_eq!(cells, 52);
    for i in 0..32 * 50 {
        assert_eq!(q.try_pop(&mut epoch, me), Some(i));
    }
    for _ in 0..4 {
        crossbeam::mem::epoch::try_gc(&mut epoch, me);
    }
    let mut cells = 0;
    for a in 1..=epoch.heap.high_water() {
        if epoch.heap.is_allocated(a) {
            cells += 1;
        }
    }
    // the record and the one segment that the queue still has
    assert_eq!(cells, 2);
}
