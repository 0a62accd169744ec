use crossbeam::mem::epoch::global::EpochState;
use crossbeam::sync::ms_queue::MsQueue;

#[test]
fn ms_queue_one_two_three() {
    let mut epoch = EpochState::new();
    let me = epoch.enroll();
    let mut q: MsQueue<i32> = MsQueue::new(&mut epoch, me);
    q.push(1, &mut epoch, me);
    q.push(2, &mut epoch, me);
    q.push(3, &mut epoch, me);
    assert_eq!(q.try_pop(&mut epoch, me), Some(1));
    assert_eq!(q.try_pop(&mut epoch, me), Some(2));
    assert_eq!(q.try_pop(&mut epoch, me), Some(3));
    assert_eq!(q.try_pop(&mut epoch, me), None);
}

#[test]
fn ms_queue_is_empty_and_pop() {
    let mut epoch = EpochState::new();
    let me = epoch.enroll();
    let mut q: MsQueue<String> = MsQueue::new(&mut epoch, me);
    assert!(q.is_empty(&mut epoch, me));
    q.push(String::from("a"), &mut epoch, me);
    assert!(!q.is_empty(&mut epoch, me));
    q.push(String::from("b"), &mut epoch, me);
    assert_eq!(q.pop(&mut epoch, me), "a");
    assert_eq!(q.pop(&mut epoch, me), "b");
    assert!(q.is_empty(&mut epoch, me));
    assert_eq!(q.try_pop(&mut epoch, me), None);
}

#[test]
fn ms_queue_fifo_per_producer() {
    let mut epoch = EpochState::new();
    let alice = epoch.enroll();
    let bob = epoch.enroll();
    let c = epoch.enroll();
    let mut q: MsQueue<(u8, u64)> = MsQueue::new(&mut epoch, alice);
    let mut n1 = 0;
    let mut n2 = 0;
    let mut e1 = 0;
    let mut e2 = 0;
    for round in 0..2000u64 {
        for _ in 0..(round % 4) {
            q.push((1, n1), &mut epoch, alice);
            n1 += 1;
        }
        for _ in 0..(round % 3) {
            q.push((2, n2), &mut epoch, bob);
            n2 += 1;
        }
        for _ in 0..3 {
            match q.try_pop(&mut epoch, c) {
                Some((1, n)) => {
                    assert_eq!(n, e1);
                    e1 += 1;
                }
                Some((_, n)) => {
                    assert_eq!(n, e2);
                    e2 += 1;
                }
                None => {}
            }
        }
    }
    while let Some((who, n)) = q.try_pop(&mut epoch, c) {
        if who == 1 {
            assert_eq!(n, e1);
            e1 += 1;
        } else {
            assert_eq!(n, e2);
            e2 += 1;
        }
    }
    // nothing was lost: what went in came out
    assert_eq!(e1, n1);
    assert_eq!(e2, n2);
}

#[test]
fn ms_queue_pushes_minus_pops_is_what_remains() {
    let mut epoch = EpochState::new();
    let me = epoch.enroll();
    let mut q: MsQueue<u32> = MsQueue::new(&mut epoch, me);
    let mut pushes = 0;
    let mut pops = 0;
    for i in 0..1000u32 {
        q.push(i, &mut epoch, me);
        pushes += 1;
        if i % 3 == 0 {
            if q.try_pop(&mut epoch, me).is_some() {
                pops += 1;
            }
        }
    }
    let mut remaining = 0;
    while q.try_pop(&mut epoch, me).is_some() {
        remaining += 1;
    }
    assert_eq!(pushes - pops, remaining);
}

#[test]
fn ms_queue_helps_a_tail_pointer_that_is_behind() {
    let mut epoch = EpochState::new();
    let slow = epoch.enroll();
    let fast = epoch.enroll();
    let mut q: MsQueue<u32> = MsQueue::new(&mut epoch, slow);
    // the slow thread links its node and is stopped before it swings the
    // tail pointer
    q.push_stalled(1, &mut epoch, slow);
    // the fast thread finds the tail pointer behind and helps it on
    q.push(2, &mut epoch, fast);
    q.push_stalled(3, &mut epoch, slow);
    assert_eq!(q.try_pop(&mut epoch, fast), Some(1));
    assert_eq!(q.try_pop(&mut epoch, fast), Some(2));
    assert_eq!(q.try_pop(&mut epoch, fast), Some(3));
    assert_eq!(q.try_pop(&mut epoch, fast), None);
    // a pop on a queue of one item whose tail is behind helps first
    q.push_stalled(4, &mut epoch, slow);
    assert_eq!(q.try_pop(&mut epoch, fast), Some(4));
    assert!(q.is_empty(&mut epoch, fast));
    q.push_stalled(5, &mut epoch, slow);
    q.push_stalled(6, &mut epoch, slow);
    assert_eq!(q.pop(&mut epoch, fast), 5);
    assert_eq!(q.pop(&mut epoch, fast), 6);
}
