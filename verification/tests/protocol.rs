use crossbeam::mem::epoch::protocol::{Machine, Phase};

/// A small generator of numbers, for schedules that can be repeated.
struct Rng(u64);

impl Rng {
    fn next(&mut self) -> u64 {
        self.0 ^= self.0 << 13;
        self.0 ^= self.0 >> 7;
        self.0 ^= self.0 << 17;
        self.0
    }

    fn below(&mut self, n: usize) -> usize {
        (self.next() % n as u64) as usize
    }
}

fn allocated(m: &Machine) -> usize {
    (1..=m.heap.high_water()).filter(|a| m.heap.is_allocated(*a)).count()
}

/// Every pointer that a thread holds points to an allocated cell.
fn check_holders(m: &Machine) {
    for th in m.threads.iter() {
        for a in th.holding.iter() {
            assert!(m.heap.is_allocated(*a));
        }
        if th.phase == Phase::Pinned {
            assert!(th.epoch <= m.global && m.global <= th.epoch + 1);
        }
    }
}

#[test]
fn protocol_a_thread_between_the_steps_of_its_pin_holds_the_epoch_back() {
    let mut m = Machine::new();
    let slow = m.enroll();
    let fast = m.enroll();
    // the slow thread raises its counter and reads epoch 0
    m.begin_pin(slow);
    m.read_epoch(slow);
    assert_eq!(m.threads[slow].phase, Phase::Adopting(0));
    // the fast thread pins and moves the epoch on once: the slow thread is
    // at epoch 0, as far as anyone can see
    m.begin_pin(fast);
    m.read_epoch(fast);
    assert_eq!(m.adopt(fast), false);
    let node = m.allocate(fast, 1);
    m.begin_collect(fast);
    assert!(m.check_next(fast));
    assert!(m.check_next(fast));
    assert!(m.advance(fast));
    assert_eq!(m.global, 1);
    // a second time it cannot: the slow thread has its counter up at
    // another epoch
    m.begin_collect(fast);
    assert_eq!(m.check_next(fast), false);
    assert_eq!(m.threads[fast].phase, Phase::Pinned);
    // the slow thread adopts the epoch that it read, which is one behind
    // by now, and reads a pointer to the node
    assert_eq!(m.adopt(slow), false);
    assert_eq!((m.threads[slow].epoch, m.global), (0, 1));
    m.hold(slow, node);
    // the fast thread unlinks the node and unpins and pins and tries to
    // collect, over and over
    m.unlink(fast, node);
    for _ in 0..5 {
        m.unpin(fast);
        m.begin_pin(fast);
        m.read_epoch(fast);
        m.adopt(fast);
        m.begin_collect(fast);
        let mut goes_on = true;
        for _ in 0..2 {
            if goes_on {
                goes_on = m.check_next(fast);
            }
        }
        assert_eq!(goes_on, false);
        assert!(m.heap.is_allocated(node));
        check_holders(&m);
    }
    assert_eq!(m.global, 1);
    // once the slow thread has unpinned, the epoch moves on and the node
    // is freed
    m.unpin(slow);
    for _ in 0..3 {
        m.unpin(fast);
        m.begin_pin(fast);
        m.read_epoch(fast);
        m.adopt(fast);
        m.begin_collect(fast);
        assert!(m.check_next(fast));
        assert!(m.check_next(fast));
        assert!(m.advance(fast));
    }
    assert!(!m.heap.is_allocated(node));
    assert_eq!(allocated(&m), 0);
}

#[test]
fn protocol_two_collectors_race_for_one_advance() {
    let mut m = Machine::new();
    let a = m.enroll();
    let b = m.enroll();
    for t in [a, b] {
        m.begin_pin(t);
        m.read_epoch(t);
        m.adopt(t);
        m.begin_collect(t);
    }
    // both have read epoch 0 and both find every participant at epoch 0
    for t in [a, b] {
        assert!(m.check_next(t));
        assert!(m.check_next(t));
    }
    // the first moves the epoch on, the second finds it moved
    assert_eq!(m.advance(b), true);
    assert_eq!(m.advance(a), false);
    assert_eq!(m.global, 1);
    assert_eq!((m.threads[a].epoch, m.threads[b].epoch), (0, 1));
}

#[test]
fn protocol_any_schedule_keeps_held_cells_allocated() {
    for seed in 1..40u64 {
        let mut rng = Rng(seed * 0x9E37_79B9_7F4A_7C15);
        let mut m = Machine::new();
        let n = 2 + rng.below(4);
        for _ in 0..n {
            m.enroll();
        }
        // the cells that are reachable in the structure
        let mut reachable: Vec<usize> = Vec::new();
        let mut unlinked = 0;
        for _ in 0..3000 {
            let t = rng.below(n);
            match m.threads[t].phase {
                Phase::Idle => m.begin_pin(t),
                Phase::Entering => m.read_epoch(t),
                Phase::Adopting(_) => {
                    m.adopt(t);
                }
                Phase::Pinned => match rng.below(6) {
                    0 => {
                        let a = m.allocate(t, 1);
                        reachable.push(a);
                    }
                    1 | 2 => {
                        if !reachable.is_empty() {
                            let a = reachable[rng.below(reachable.len())];
                            m.hold(t, a);
                        }
                    }
                    3 => {
                        if !reachable.is_empty() {
                            let a = reachable.swap_remove(rng.below(reachable.len()));
                            m.unlink(t, a);
                            unlinked += 1;
                        }
                    }
                    4 => m.unpin(t),
                    _ => {
                        if m.threads[t].holding.is_empty() {
                            m.begin_collect(t);
                        }
                    }
                },
                Phase::Scanning(_, next) => {
                    if next < n {
                        m.check_next(t);
                    } else {
                        m.advance(t);
                    }
                }
            }
            check_holders(&m);
            for a in reachable.iter() {
                assert!(m.heap.is_allocated(*a));
            }
        }
        // let every thread come to rest, and one of them collect
        for t in 0..n {
            loop {
                match m.threads[t].phase {
                    Phase::Idle => break,
                    Phase::Entering => m.read_epoch(t),
                    Phase::Adopting(_) => {
                        m.adopt(t);
                    }
                    Phase::Pinned => m.unpin(t),
                    Phase::Scanning(_, next) => {
                        if next < n {
                            m.check_next(t);
                        } else {
                            m.advance(t);
                        }
                    }
                }
            }
        }
        let before = allocated(&m);
        for round in 0..4 {
            for t in 0..n {
                m.begin_pin(t);
                m.read_epoch(t);
                m.adopt(t);
                if t == round % n {
                    m.begin_collect(t);
                    for _ in 0..n {
                        assert!(m.check_next(t));
                    }
                    assert!(m.advance(t));
                }
                m.unpin(t);
            }
        }
        // what is left is what is reachable: every unlinked cell was freed
        assert!(unlinked == 0 || allocated(&m) <= before);
        assert_eq!(allocated(&m), reachable.len());
    }
}
