use crossbeam::mem::epoch::protocol::Phase;
use crossbeam::sync::treiber_steps::{Job, Steps};

/// A small generator of numbers, for schedules that can be repeated.
struct Lcg(u64);

impl Lcg {
    fn next(&mut self) -> u64 {
        self.0 = self.0.wrapping_mul(6364136223846793005).wrapping_add(1442695040888963407);
        self.0 >> 33
    }

    fn below(&mut self, n: usize) -> usize {
        (self.next() % n as u64) as usize
    }
}

fn pin(s: &mut Steps<u64>, t: usize) {
    s.begin_pin(t);
    s.read_epoch(t);
    s.adopt(t);
}

fn push(s: &mut Steps<u64>, t: usize, value: u64) -> usize {
    s.start_push(t, value);
    let node = match s.job_of(t) {
        Job::Push(a) => a,
        other => panic!("a push that has started is at {:?}", other),
    };
    loop {
        s.push_read_head(t);
        if s.push_cas(t) {
            return node;
        }
    }
}

fn pop(s: &mut Steps<u64>, t: usize) -> Option<u64> {
    s.start_pop(t);
    loop {
        if !s.pop_read_head(t) {
            return None;
        }
        s.pop_read_next(t);
        if let Some(item) = s.pop_cas(t) {
            return Some(item);
        }
    }
}

/// One try of thread `t` to move the global epoch on.
fn collect(s: &mut Steps<u64>, t: usize) -> bool {
    s.begin_collect(t);
    let threads = s.ebr().threads.len();
    for _ in 0..threads {
        if !s.check_next(t) {
            return false;
        }
    }
    s.advance(t)
}

fn check_holders(s: &Steps<u64>) {
    let m = s.ebr();
    for th in m.threads.iter() {
        for a in th.holding.iter() {
            assert!(m.heap.is_allocated(*a));
        }
    }
}

#[test]
fn steps_one_thread_pushes_and_pops_in_stack_order() {
    let mut s: Steps<u64> = Steps::new();
    let t = s.enroll();
    pin(&mut s, t);
    assert_eq!(s.head(), 0);
    assert_eq!(pop(&mut s, t), None);
    assert_eq!(s.job_of(t), Job::Idle);
    let one = push(&mut s, t, 1);
    let two = push(&mut s, t, 2);
    let three = push(&mut s, t, 3);
    assert_eq!((one, two, three), (1, 2, 3));
    assert_eq!(s.head(), three);
    assert_eq!(pop(&mut s, t), Some(3));
    assert_eq!(s.head(), two);
    assert_eq!(pop(&mut s, t), Some(2));
    assert_eq!(pop(&mut s, t), Some(1));
    assert_eq!(pop(&mut s, t), None);
    assert_eq!(s.head(), 0);
    s.unpin(t);
    assert_eq!(s.ebr().threads[t].phase, Phase::Idle);
}

#[test]
fn steps_a_push_that_lost_the_race_links_again() {
    let mut s: Steps<u64> = Steps::new();
    let a = s.enroll();
    let b = s.enroll();
    pin(&mut s, a);
    pin(&mut s, b);
    s.start_push(a, 10);
    s.start_push(b, 20);
    s.push_read_head(a);
    s.push_read_head(b);
    assert_eq!(s.job_of(a), Job::Linked(1, 0));
    assert_eq!(s.job_of(b), Job::Linked(2, 0));
    // the second wins; the first finds the head changed
    assert!(s.push_cas(b));
    assert_eq!(s.job_of(b), Job::Idle);
    assert_eq!(s.push_cas(a), false);
    assert_eq!(s.job_of(a), Job::Push(1));
    assert_eq!(s.head(), 2);
    s.push_read_head(a);
    assert_eq!(s.job_of(a), Job::Linked(1, 2));
    assert!(s.push_cas(a));
    assert_eq!(s.head(), 1);
    assert_eq!(pop(&mut s, b), Some(10));
    assert_eq!(pop(&mut s, a), Some(20));
    assert_eq!(pop(&mut s, a), None);
}

#[test]
fn steps_a_pop_that_lost_the_race_reads_again() {
    let mut s: Steps<u64> = Steps::new();
    let a = s.enroll();
    let b = s.enroll();
    pin(&mut s, a);
    pin(&mut s, b);
    push(&mut s, a, 1);
    push(&mut s, a, 2);
    s.start_pop(a);
    s.start_pop(b);
    assert!(s.pop_read_head(a));
    assert!(s.pop_read_head(b));
    s.pop_read_next(a);
    s.pop_read_next(b);
    assert_eq!(s.job_of(a), Job::Next(2, 1));
    assert_eq!(s.job_of(b), Job::Next(2, 1));
    assert_eq!(s.pop_cas(a), Some(2));
    assert_eq!(s.pop_cas(b), None);
    assert_eq!(s.job_of(b), Job::Pop);
    assert!(s.pop_read_head(b));
    s.pop_read_next(b);
    assert_eq!(s.job_of(b), Job::Next(1, 0));
    assert_eq!(s.pop_cas(b), Some(1));
    assert_eq!(s.job_of(b), Job::Idle);
    s.start_pop(b);
    assert_eq!(s.pop_read_head(b), false);
    assert_eq!(s.job_of(b), Job::Idle);
    check_holders(&s);
}

#[test]
fn steps_a_node_that_a_pinned_pop_has_read_is_not_reused_under_it() {
    let mut s: Steps<u64> = Steps::new();
    let reader = s.enroll();
    let writer = s.enroll();
    pin(&mut s, writer);
    let low = push(&mut s, writer, 1);
    let top = push(&mut s, writer, 2);
    // the reader reads the head and the link, and is held up
    pin(&mut s, reader);
    s.start_pop(reader);
    assert!(s.pop_read_head(reader));
    s.pop_read_next(reader);
    assert_eq!(s.job_of(reader), Job::Next(top, low));
    // the writer pops both nodes and pushes on, collecting as it can
    assert_eq!(pop(&mut s, writer), Some(2));
    assert_eq!(pop(&mut s, writer), Some(1));
    for round in 0..20u64 {
        let node = push(&mut s, writer, 100 + round);
        assert_ne!(node, top);
        assert_ne!(s.head(), top);
        assert_eq!(pop(&mut s, writer), Some(100 + round));
        s.unpin(writer);
        pin(&mut s, writer);
        collect(&mut s, writer);
        assert!(s.ebr().heap.is_allocated(top));
        assert!(s.ebr().global <= 1);
        check_holders(&s);
    }
    let last = push(&mut s, writer, 7);
    // the head is another node by now, and the reader sees that
    assert_eq!(s.pop_cas(reader), None);
    assert_eq!(s.job_of(reader), Job::Pop);
    assert!(s.pop_read_head(reader));
    s.pop_read_next(reader);
    assert_eq!(s.job_of(reader), Job::Next(last, 0));
    assert_eq!(s.pop_cas(reader), Some(7));
    // once the reader has unpinned, the node is freed and its address
    // comes back
    s.unpin(reader);
    s.unpin(writer);
    for _ in 0..4 {
        pin(&mut s, writer);
        collect(&mut s, writer);
        s.unpin(writer);
    }
    assert!(!s.ebr().heap.is_allocated(top));
    pin(&mut s, writer);
    let mut seen_again = false;
    let mut pushed = Vec::new();
    for i in 0..30u64 {
        let node = push(&mut s, writer, i);
        seen_again = seen_again || node == top;
        pushed.push(i);
    }
    assert!(seen_again);
    while let Some(want) = pushed.pop() {
        assert_eq!(pop(&mut s, writer), Some(want));
    }
}

/// The next step of thread `t`, chosen by what it is about. Pushes and
/// pops are played on `model` at the step at which they take effect.
fn step(s: &mut Steps<u64>, t: usize, rng: &mut Lcg, model: &mut Vec<u64>, next: &mut u64) {
    let phase = s.ebr().threads[t].phase;
    match phase {
        Phase::Idle => s.begin_pin(t),
        Phase::Entering => s.read_epoch(t),
        Phase::Adopting(_) => {
            s.adopt(t);
        }
        Phase::Scanning(_, at) => {
            if at < s.ebr().threads.len() {
                s.check_next(t);
            } else {
                s.advance(t);
            }
        }
        Phase::Pinned => match s.job_of(t) {
            Job::Idle => match rng.below(5) {
                0 | 1 => {
                    *next += 1;
                    s.start_push(t, *next);
                }
                2 | 3 => s.start_pop(t),
                _ => {
                    if s.ebr().threads[t].holding.is_empty() && rng.below(2) == 0 {
                        s.begin_collect(t);
                    } else {
                        s.unpin(t);
                    }
                }
            },
            Job::Push(_) => s.push_read_head(t),
            Job::Linked(a, _) => {
                let value = if s.push_cas(t) {
                    // the node is on top now
                    assert_eq!(s.head(), a);
                    true
                } else {
                    false
                };
                if value {
                    model.push(0);
                    let n = model.len();
                    model[n - 1] = a as u64;
                }
            }
            Job::Pop => {
                let found = s.pop_read_head(t);
                assert_eq!(found, !model.is_empty());
            }
            Job::Read(_) => s.pop_read_next(t),
            Job::Next(h, _) => {
                let was_top = model.last().copied() == Some(h as u64);
                let got = s.pop_cas(t);
                assert_eq!(got.is_some(), was_top);
                if got.is_some() {
                    model.pop();
                }
            }
        },
    }
}

#[test]
fn steps_any_schedule_keeps_the_stack_and_the_pointers_in_order() {
    for seed in 1..40u64 {
        let mut rng = Lcg(seed);
        let mut s: Steps<u64> = Steps::new();
        let threads = 2 + rng.below(3);
        for _ in 0..threads {
            s.enroll();
        }
        // the addresses of the nodes on the stack, the top last
        let mut model: Vec<u64> = Vec::new();
        let mut next = 0u64;
        for _ in 0..3000 {
            let t = rng.below(threads);
            step(&mut s, t, &mut rng, &mut model, &mut next);
            check_holders(&s);
            assert_eq!(s.head() as u64, model.last().copied().unwrap_or(0));
            for a in model.iter() {
                assert!(s.ebr().heap.is_allocated(*a as usize));
            }
        }
    }
}

#[test]
fn steps_items_come_back_in_the_order_of_the_steps_that_took_effect() {
    let mut s: Steps<u64> = Steps::new();
    let a = s.enroll();
    let b = s.enroll();
    let c = s.enroll();
    for t in [a, b, c] {
        pin(&mut s, t);
    }
    // three pushes start in one order and take effect in another
    s.start_push(a, 1);
    s.start_push(b, 2);
    s.start_push(c, 3);
    s.push_read_head(c);
    assert!(s.push_cas(c));
    s.push_read_head(a);
    s.push_read_head(b);
    assert!(s.push_cas(a));
    assert_eq!(s.push_cas(b), false);
    s.push_read_head(b);
    assert!(s.push_cas(b));
    assert_eq!(pop(&mut s, a), Some(2));
    assert_eq!(pop(&mut s, b), Some(1));
    assert_eq!(pop(&mut s, c), Some(3));
    assert_eq!(pop(&mut s, c), None);
}

/// Thread `t` finishes what it is about and unpins.
fn finish(s: &mut Steps<u64>, t: usize, rng: &mut Lcg, model: &mut Vec<u64>, next: &mut u64) {
    loop {
        let phase = s.ebr().threads[t].phase;
        if phase == Phase::Idle {
            return;
        }
        if phase == Phase::Pinned && s.job_of(t) == Job::Idle {
            s.unpin(t);
        } else {
            step(s, t, rng, model, next);
        }
    }
}

#[test]
fn steps_nothing_stays_allocated_but_the_nodes_on_the_stack() {
    for seed in 100..120u64 {
        let mut rng = Lcg(seed);
        let mut s: Steps<u64> = Steps::new();
        let threads = 2 + rng.below(3);
        for _ in 0..threads {
            s.enroll();
        }
        let mut model: Vec<u64> = Vec::new();
        let mut next = 0u64;
        for _ in 0..2000 {
            let t = rng.below(threads);
            step(&mut s, t, &mut rng, &mut model, &mut next);
        }
        for t in 0..threads {
            finish(&mut s, t, &mut rng, &mut model, &mut next);
        }
        // every thread moves on three epochs and frees what it retired
        for _ in 0..3 {
            for t in 0..threads {
                pin(&mut s, t);
                collect(&mut s, t);
                s.unpin(t);
            }
        }
        let heap = &s.ebr().heap;
        let allocated: Vec<u64> =
            (1..=heap.high_water()).filter(|a| heap.is_allocated(*a)).map(|a| a as u64).collect();
        let mut on_stack = model.clone();
        on_stack.sort();
        assert_eq!(allocated, on_stack);
    }
}
