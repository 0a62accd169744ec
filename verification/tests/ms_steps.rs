use crossbeam::mem::epoch::protocol::Phase;
use crossbeam::sync::ms_steps::{Job, Steps};

/// A small generator of numbers, for schedules that can be repeated.
struct Lcg(u64);

impl Lcg {
    fn next(&mut self) -> u64 {
        self.0 = self.0.wrapping_mul(6364136223846793005).wrapping_add(1442695040888963407);
        self.0 >> 33
    }

    fn below(&mut self, n: usize) -> usize {
        (self.next() % n as u64) as usize
    }
}

fn pin(s: &mut Steps<u64>, t: usize) {
    s.begin_pin(t);
    s.read_epoch(t);
    s.adopt(t);
}

fn push(s: &mut Steps<u64>, t: usize, value: u64) -> usize {
    s.start_push(t, value);
    let node = match s.job_of(t) {
        Job::Push(a) => a,
        other => panic!("a push that has started is at {:?}", other),
    };
    loop {
        s.push_read_tail(t);
        s.push_read_next(t);
        if s.push_link(t) {
            s.push_swing(t);
            return node;
        }
    }
}

fn pop(s: &mut Steps<u64>, t: usize) -> Option<u64> {
    s.start_pop(t);
    loop {
        s.pop_read_head(t);
        s.pop_read_tail(t);
        if s.pop_read_next(t) {
            return None;
        }
        if let Some(item) = s.pop_cas(t) {
            return Some(item);
        }
    }
}

/// One try of thread `t` to move the global epoch on.
fn collect(s: &mut Steps<u64>, t: usize) -> bool {
    s.begin_collect(t);
    let threads = s.ebr().threads.len();
    for _ in 0..threads {
        if !s.check_next(t) {
            return false;
        }
    }
    s.advance(t)
}

fn check_holders(s: &Steps<u64>) {
    let m = s.ebr();
    for th in m.threads.iter() {
        for a in th.holding.iter() {
            assert!(m.heap.is_allocated(*a));
        }
    }
}

#[test]
fn queue_steps_one_thread_pushes_and_pops_in_queue_order() {
    let mut s: Steps<u64> = Steps::new();
    let t = s.enroll();
    pin(&mut s, t);
    assert_eq!(s.head(), s.tail());
    assert_eq!(pop(&mut s, t), None);
    assert_eq!(s.job_of(t), Job::Idle);
    push(&mut s, t, 1);
    push(&mut s, t, 2);
    let last = push(&mut s, t, 3);
    assert_eq!(s.tail(), last);
    assert_eq!(pop(&mut s, t), Some(1));
    assert_eq!(pop(&mut s, t), Some(2));
    assert_eq!(pop(&mut s, t), Some(3));
    assert_eq!(pop(&mut s, t), None);
    assert_eq!(s.head(), s.tail());
    s.unpin(t);
    assert_eq!(s.ebr().threads[t].phase, Phase::Idle);
}

#[test]
fn queue_steps_a_push_helps_a_tail_that_is_behind() {
    let mut s: Steps<u64> = Steps::new();
    let slow = s.enroll();
    let fast = s.enroll();
    pin(&mut s, slow);
    pin(&mut s, fast);
    let first = s.head();
    // the slow thread links its node and is held up before it swings the
    // tail
    s.start_push(slow, 1);
    s.push_read_tail(slow);
    s.push_read_next(slow);
    assert!(s.push_link(slow));
    let one = match s.job_of(slow) {
        Job::PushLinked(a, behind) => {
            assert_eq!(behind, first);
            a
        }
        other => panic!("a push that has linked is at {:?}", other),
    };
    assert_eq!(s.tail(), first);
    // the fast thread finds a link out of the tail node, helps the tail on
    // and starts over
    s.start_push(fast, 2);
    s.push_read_tail(fast);
    s.push_read_next(fast);
    assert_eq!(s.job_of(fast), Job::PushNext(3, first, one));
    assert_eq!(s.push_link(fast), false);
    assert_eq!(s.tail(), one);
    assert_eq!(s.job_of(fast), Job::Push(3));
    s.push_read_tail(fast);
    s.push_read_next(fast);
    assert!(s.push_link(fast));
    assert!(s.push_swing(fast));
    assert_eq!(s.tail(), 3);
    // the slow thread finds the tail swung already
    assert_eq!(s.push_swing(slow), false);
    assert_eq!(s.tail(), 3);
    assert_eq!(pop(&mut s, slow), Some(1));
    assert_eq!(pop(&mut s, fast), Some(2));
    assert_eq!(pop(&mut s, fast), None);
}

#[test]
fn queue_steps_a_pop_helps_a_tail_that_is_behind() {
    let mut s: Steps<u64> = Steps::new();
    let slow = s.enroll();
    let fast = s.enroll();
    pin(&mut s, slow);
    pin(&mut s, fast);
    let first = s.head();
    s.start_push(slow, 1);
    s.push_read_tail(slow);
    s.push_read_next(slow);
    assert!(s.push_link(slow));
    // the item is in the queue, the tail is still at the head node
    s.start_pop(fast);
    s.pop_read_head(fast);
    s.pop_read_tail(fast);
    assert_eq!(s.job_of(fast), Job::PopTail(first, first));
    assert_eq!(s.pop_read_next(fast), false);
    assert_eq!(s.pop_cas(fast), None);
    assert_ne!(s.tail(), first);
    assert_eq!(s.job_of(fast), Job::Pop);
    s.pop_read_head(fast);
    s.pop_read_tail(fast);
    assert_eq!(s.pop_read_next(fast), false);
    assert_eq!(s.pop_cas(fast), Some(1));
    assert_eq!(s.head(), s.tail());
    assert_eq!(s.push_swing(slow), false);
}

#[test]
fn queue_steps_two_pops_race_for_one_item() {
    let mut s: Steps<u64> = Steps::new();
    let a = s.enroll();
    let b = s.enroll();
    pin(&mut s, a);
    pin(&mut s, b);
    push(&mut s, a, 1);
    push(&mut s, a, 2);
    for t in [a, b] {
        s.start_pop(t);
        s.pop_read_head(t);
        s.pop_read_tail(t);
        assert_eq!(s.pop_read_next(t), false);
    }
    assert_eq!(s.job_of(a), s.job_of(b));
    assert_eq!(s.pop_cas(b), Some(1));
    assert_eq!(s.pop_cas(a), None);
    assert_eq!(s.job_of(a), Job::Pop);
    s.pop_read_head(a);
    s.pop_read_tail(a);
    assert_eq!(s.pop_read_next(a), false);
    assert_eq!(s.pop_cas(a), Some(2));
    assert_eq!(pop(&mut s, b), None);
    check_holders(&s);
}

#[test]
fn queue_steps_a_push_with_an_old_tail_does_not_link_behind_a_popped_node() {
    let mut s: Steps<u64> = Steps::new();
    let slow = s.enroll();
    let fast = s.enroll();
    pin(&mut s, slow);
    pin(&mut s, fast);
    let first = s.head();
    // the slow thread reads the tail and that it has no link
    s.start_push(slow, 9);
    s.push_read_tail(slow);
    s.push_read_next(slow);
    assert_eq!(s.job_of(slow), Job::PushNext(1 + first, first, 0));
    // meanwhile the node gets a link and leaves the list
    push(&mut s, fast, 1);
    push(&mut s, fast, 2);
    assert_eq!(pop(&mut s, fast), Some(1));
    assert!(!s.ebr().heap.is_allocated(0));
    assert!(s.ebr().heap.is_allocated(first));
    for round in 0..10u64 {
        let node = push(&mut s, fast, 10 + round);
        assert_ne!(node, first);
        s.unpin(fast);
        pin(&mut s, fast);
        collect(&mut s, fast);
        assert!(s.ebr().heap.is_allocated(first));
    }
    // the slow thread finds the link and starts over
    assert_eq!(s.push_link(slow), false);
    s.push_read_tail(slow);
    s.push_read_next(slow);
    assert!(s.push_link(slow));
    assert!(s.push_swing(slow));
    let mut got = Vec::new();
    while let Some(item) = pop(&mut s, fast) {
        got.push(item);
    }
    assert_eq!(got, vec![2, 10, 11, 12, 13, 14, 15, 16, 17, 18, 19, 9]);
}

/// The items in the queue and the item that each thread is about to push,
/// as the steps that took effect so far have left them.
struct Model {
    items: Vec<u64>,
    pushing: Vec<u64>,
    next: u64,
}

/// The next step of thread `t`, chosen by what it is about. Pushes and
/// pops are played on `model` at the step at which they take effect.
fn step(s: &mut Steps<u64>, t: usize, rng: &mut Lcg, model: &mut Model) {
    let phase = s.ebr().threads[t].phase;
    match phase {
        Phase::Idle => s.begin_pin(t),
        Phase::Entering => s.read_epoch(t),
        Phase::Adopting(_) => {
            s.adopt(t);
        }
        Phase::Scanning(_, at) => {
            if at < s.ebr().threads.len() {
                s.check_next(t);
            } else {
                s.advance(t);
            }
        }
        Phase::Pinned => match s.job_of(t) {
            Job::Idle => match rng.below(5) {
                0 | 1 => {
                    model.next += 1;
                    model.pushing[t] = model.next;
                    s.start_push(t, model.next);
                }
                2 | 3 => s.start_pop(t),
                _ => {
                    if s.ebr().threads[t].holding.is_empty() && rng.below(2) == 0 {
                        s.begin_collect(t);
                    } else {
                        s.unpin(t);
                    }
                }
            },
            Job::Push(_) => s.push_read_tail(t),
            Job::PushTail(_, _) => s.push_read_next(t),
            Job::PushNext(_, _, _) => {
                if s.push_link(t) {
                    model.items.push(model.pushing[t]);
                }
            }
            Job::PushLinked(_, _) => {
                s.push_swing(t);
            }
            Job::Pop => s.pop_read_head(t),
            Job::PopHead(_) => s.pop_read_tail(t),
            Job::PopTail(_, _) => {
                if s.pop_read_next(t) {
                    assert!(model.items.is_empty());
                }
            }
            Job::PopNext(_, _, _) => {
                if let Some(item) = s.pop_cas(t) {
                    assert_eq!(item, model.items.remove(0));
                }
            }
        },
    }
}

/// Thread `t` finishes what it is about and unpins.
fn finish(s: &mut Steps<u64>, t: usize, rng: &mut Lcg, model: &mut Model) {
    loop {
        let phase = s.ebr().threads[t].phase;
        if phase == Phase::Idle {
            return;
        }
        if phase == Phase::Pinned && s.job_of(t) == Job::Idle {
            s.unpin(t);
        } else {
            step(s, t, rng, model);
        }
    }
}

#[test]
fn queue_steps_any_schedule_keeps_the_order_and_frees_what_was_popped() {
    for seed in 1..40u64 {
        let mut rng = Lcg(seed);
        let mut s: Steps<u64> = Steps::new();
        let threads = 2 + rng.below(3);
        for _ in 0..threads {
            s.enroll();
        }
        let mut model = Model { items: Vec::new(), pushing: vec![0; threads], next: 0 };
        for _ in 0..3000 {
            let t = rng.below(threads);
            step(&mut s, t, &mut rng, &mut model);
            check_holders(&s);
            assert!(s.ebr().heap.is_allocated(s.head()));
            assert!(s.ebr().heap.is_allocated(s.tail()));
        }
        for t in 0..threads {
            finish(&mut s, t, &mut rng, &mut model);
        }
        for _ in 0..3 {
            for t in 0..threads {
                pin(&mut s, t);
                collect(&mut s, t);
                s.unpin(t);
            }
        }
        // what is allocated is the head node and a node for each item
        let heap = &s.ebr().heap;
        let allocated = (1..=heap.high_water()).filter(|a| heap.is_allocated(*a)).count();
        assert_eq!(allocated, model.items.len() + 1);
        pin(&mut s, 0);
        let mut left = Vec::new();
        while let Some(item) = pop(&mut s, 0) {
            left.push(item);
        }
        assert_eq!(left, model.items);
    }
}

#[test]
fn queue_steps_each_producer_finds_its_items_in_its_order() {
    for seed in 1..20u64 {
        let mut rng = Lcg(seed);
        let mut s: Steps<u64> = Steps::new();
        let producers = 3;
        for _ in 0..producers + 1 {
            s.enroll();
        }
        let consumer = producers;
        let per = 40u64;
        let mut sent = vec![0u64; producers];
        let mut got: Vec<Vec<u64>> = vec![Vec::new(); producers];
        let mut received = 0;
        while received < per as usize * producers {
            let t = rng.below(producers + 1);
            let phase = s.ebr().threads[t].phase;
            if phase != Phase::Pinned {
                match phase {
                    Phase::Idle => s.begin_pin(t),
                    Phase::Entering => s.read_epoch(t),
                    _ => {
                        s.adopt(t);
                    }
                }
                continue;
            }
            match s.job_of(t) {
                Job::Idle => {
                    if t == consumer {
                        s.start_pop(t);
                    } else if sent[t] < per {
                        s.start_push(t, t as u64 * 1000 + sent[t]);
                        sent[t] += 1;
                    }
                }
                Job::Push(_) => s.push_read_tail(t),
                Job::PushTail(_, _) => s.push_read_next(t),
                Job::PushNext(_, _, _) => {
                    s.push_link(t);
                }
                Job::PushLinked(_, _) => {
                    s.push_swing(t);
                }
                Job::Pop => s.pop_read_head(t),
                Job::PopHead(_) => s.pop_read_tail(t),
                Job::PopTail(_, _) => {
                    s.pop_read_next(t);
                }
                Job::PopNext(_, _, _) => {
                    if let Some(item) = s.pop_cas(t) {
                        got[(item / 1000) as usize].push(item % 1000);
                        received += 1;
                    }
                }
            }
        }
        for p in 0..producers {
            assert_eq!(got[p], (0..per).collect::<Vec<u64>>());
        }
    }
}
