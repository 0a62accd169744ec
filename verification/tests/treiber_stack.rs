use crossbeam::mem::epoch::global::EpochState;
use crossbeam::sync::treiber_stack::TreiberStack;

#[test]
fn treiber_push_pop_lifo() {
    let mut epoch = EpochState::new();
    let me = epoch.enroll();
    let mut s: TreiberStack<i64> = TreiberStack::new();
    s.push(1, &mut epoch, me);
    s.push(2, &mut epoch, me);
    s.push(3, &mut epoch, me);
    assert_eq!(s.try_pop(&mut epoch, me), Some(3));
    assert_eq!(s.try_pop(&mut epoch, me), Some(2));
    assert_eq!(s.try_pop(&mut epoch, me), Some(1));
    assert_eq!(s.try_pop(&mut epoch, me), None);
}

#[test]
fn treiber_pops_return_the_pushes_in_reverse() {
    let mut epoch = EpochState::new();
    let me = epoch.enroll();
    let mut s: TreiberStack<u32> = TreiberStack::new();
    assert!(s.is_empty(&mut epoch, me));
    for i in 0..500u32 {
        s.push(i, &mut epoch, me);
    }
    assert!(!s.is_empty(&mut epoch, me));
    for i in (0..500u32).rev() {
        assert_eq!(s.try_pop(&mut epoch, me), Some(i));
    }
    assert_eq!(s.try_pop(&mut epoch, me), None);
    assert!(s.is_empty(&mut epoch, me));
}

#[test]
fn treiber_pushes_minus_pops_is_what_remains() {
    let mut epoch = EpochState::new();
    let alice = epoch.enroll();
    let bob = epoch.enroll();
    let mut s: TreiberStack<u32> = TreiberStack::new();
    let mut pushed = 0;
    let mut popped = 0;
    for round in 0..200u32 {
        s.push(round, &mut epoch, alice);
        s.push(round + 1000, &mut epoch, bob);
        pushed += 2;
        if round % 3 == 0 {
            assert!(s.try_pop(&mut epoch, bob).is_some());
            popped += 1;
        }
    }
    let mut left = 0;
    while s.pop(&mut epoch, alice).is_some() {
        left += 1;
    }
    assert_eq!(left, pushed - popped);
    // a pop on the empty stack takes nothing and counts for nothing
    assert_eq!(s.try_pop(&mut epoch, alice), None);
    assert_eq!(s.pop(&mut epoch, bob), None);
}
