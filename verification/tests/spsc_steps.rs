use crossbeam::sync::spsc_steps::{Consuming, Producing, Ring};

/// A small generator of numbers, for schedules that can be repeated.
struct Lcg(u64);

impl Lcg {
    fn next(&mut self) -> u64 {
        self.0 = self.0.wrapping_mul(6364136223846793005).wrapping_add(1442695040888963407);
        self.0 >> 33
    }
}

#[test]
fn ring_steps_an_item_is_seen_once_the_tail_has_moved() {
    let mut r: Ring<u64> = Ring::new(1);
    assert_eq!(r.push_check(7), None);
    assert_eq!(r.producer(), Producing::Write);
    // written or not, the item is not there before the tail moves
    assert_eq!(r.pop_check(), false);
    r.push_write();
    assert_eq!(r.producer(), Producing::Publish);
    assert_eq!(r.pop_check(), false);
    assert_eq!(r.consumer(), Consuming::Idle);
    r.push_publish();
    assert_eq!(r.producer(), Producing::Idle);
    assert_eq!(r.pop_check(), true);
    assert_eq!(r.consumer(), Consuming::Read);
    assert_eq!(r.pop_read(), 7);
    assert_eq!(r.consumer(), Consuming::Release);
    r.pop_release();
    assert_eq!(r.pop_check(), false);
}

#[test]
fn ring_steps_a_slot_is_free_once_the_head_has_moved() {
    let mut r: Ring<u64> = Ring::new(2);
    for v in [1, 2] {
        assert_eq!(r.push_check(v), None);
        r.push_write();
        r.push_publish();
    }
    // full: the value comes back
    assert_eq!(r.push_check(3), Some(3));
    assert_eq!(r.producer(), Producing::Idle);
    assert!(r.pop_check());
    assert_eq!(r.pop_read(), 1);
    // read, but not released
    assert_eq!(r.push_check(3), Some(3));
    r.pop_release();
    assert_eq!(r.push_check(3), None);
    r.push_write();
    r.push_publish();
    assert!(r.pop_check());
    assert_eq!(r.pop_read(), 2);
    r.pop_release();
    assert!(r.pop_check());
    assert_eq!(r.pop_read(), 3);
    r.pop_release();
    assert_eq!(r.pop_check(), false);
}

#[test]
fn ring_steps_a_ring_without_room_takes_nothing() {
    let mut r: Ring<u64> = Ring::new(0);
    assert_eq!(r.push_check(1), Some(1));
    assert_eq!(r.pop_check(), false);
}

#[test]
fn ring_steps_any_schedule_hands_the_items_over_in_order() {
    for seed in 1..30u64 {
        let mut rng = Lcg(seed);
        let capacity = 1 + (rng.next() % 7) as usize;
        let mut r: Ring<u64> = Ring::new(capacity);
        let total = 5000u64;
        let mut sent = 0u64;
        let mut received = 0u64;
        let mut in_ring = 0usize;
        while received < total {
            if rng.next() % 2 == 0 {
                match r.producer() {
                    Producing::Idle => {
                        if sent < total {
                            match r.push_check(sent) {
                                None => sent += 1,
                                Some(back) => {
                                    assert_eq!(back, sent);
                                    // full, or the last slot read is not
                                    // released yet
                                    assert!(in_ring + 1 >= capacity);
                                }
                            }
                        }
                    }
                    Producing::Write => r.push_write(),
                    Producing::Publish => {
                        r.push_publish();
                        in_ring += 1;
                        assert!(in_ring <= capacity);
                    }
                }
            } else {
                match r.consumer() {
                    Consuming::Idle => {
                        let found = r.pop_check();
                        assert_eq!(found, in_ring > 0);
                    }
                    Consuming::Read => {
                        assert_eq!(r.pop_read(), received);
                        received += 1;
                        in_ring -= 1;
                    }
                    Consuming::Release => r.pop_release(),
                }
            }
        }
        assert_eq!(sent, total);
        assert_eq!(in_ring, 0);
    }
}
