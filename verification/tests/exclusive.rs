use crossbeam::mem::epoch::MemOrder::Relaxed;
use crossbeam::sync::exclusive::{
    is_lock_free, ExclusiveBool, ExclusiveIsize, ExclusivePtr, ExclusiveUsize, IsU64, LlscBool,
};

#[test]
fn exclusive_64_test_cas() {
    let val: usize = 0x1000;
    let mut eptr = ExclusivePtr::new(0);
    let ll = eptr.load_linked(Relaxed);
    assert_eq!(eptr.load(Relaxed), 0);
    assert_eq!(ll.store_conditional(&mut eptr, val, Relaxed).is_none(), true);
    assert_eq!(eptr.load(Relaxed), val);
}

#[test]
fn exclusive_64_test_cas_fail() {
    let val: usize = 0x1000;
    let val2: usize = 0x2000;
    let mut eptr = ExclusivePtr::new(0);
    let ll = eptr.load_linked(Relaxed);
    assert_eq!(eptr.load(Relaxed), 0);
    eptr.store_direct(val2, Relaxed);
    assert_eq!(eptr.load(Relaxed), val2);
    assert_eq!(ll.store_conditional(&mut eptr, val, Relaxed).is_some(), true);
    assert_eq!(eptr.load(Relaxed), val2);
}

#[test]
fn test_cas_fail_xchg() {
    let val: usize = 0x1000;
    let val2: usize = 0x2000;
    let mut eptr = ExclusivePtr::new(0);
    let ll = eptr.load_linked(Relaxed);
    assert_eq!(eptr.load(Relaxed), 0);
    assert_eq!(eptr.exchange_direct(val2, Relaxed), 0);
    assert_eq!(eptr.load(Relaxed), val2);
    assert_eq!(ll.store_conditional(&mut eptr, val, Relaxed).is_some(), true);
    assert_eq!(eptr.load(Relaxed), val2);
}

// Four workers take turns; each has a linked load in hand when the others
// store, and retries with what it is handed back.
#[test]
fn test_mt_cas() {
    let num_run: usize = 1000000;
    let num_thread: usize = 4;
    let mut val = ExclusiveUsize::new(0);
    let mut done = [0usize; 4];
    let mut retries = 0usize;
    let mut turn = 0;
    while done.iter().any(|d| *d < num_run) {
        // every worker that has work left loads ...
        let mut links = Vec::new();
        for t in 0..num_thread {
            if done[t] < num_run {
                links.push((t, val.load_linked(Relaxed)));
            }
        }
        // ... and they store in an order that changes from turn to turn
        let by = turn % links.len();
        links.rotate_left(by);
        for (t, mut ll) in links {
            loop {
                let next = ll.get() + 1;
                match ll.store_conditional(&mut val, next, Relaxed) {
                    None => break,
                    Some(nll) => {
                        retries += 1;
                        ll = nll
                    }
                }
            }
            done[t] += 1;
        }
        turn += 1;
    }
    assert_eq!(val.load(Relaxed), num_run * num_thread);
    // all but the first store of a turn had a stale link
    assert!(retries >= 3 * num_run);
}

#[test]
fn exclusive_a_store_between_fails_even_if_the_word_is_back() {
    let mut word = ExclusiveUsize::new(7);
    let stale = word.load_linked(Relaxed);
    let fresh = word.load_linked(Relaxed);
    assert!(fresh.store_conditional(&mut word, 8, Relaxed).is_none());
    let back = word.load_linked(Relaxed);
    assert!(back.store_conditional(&mut word, 7, Relaxed).is_none());
    assert_eq!(word.load(Relaxed), 7);
    // the word is what the stale link saw, the counter is not
    let now = stale.store_conditional(&mut word, 9, Relaxed);
    assert!(now.is_some());
    assert_eq!(now.unwrap().get(), 7);
    assert_eq!(word.load(Relaxed), 7);
    // a direct store does not move the counter: this is not noticed
    let link = word.load_linked(Relaxed);
    word.store_direct(1, Relaxed);
    word.store_direct(7, Relaxed);
    assert!(link.store_conditional(&mut word, 10, Relaxed).is_none());
    assert_eq!(word.load(Relaxed), 10);
}

#[test]
fn exclusive_words_of_other_types() {
    assert!(is_lock_free());
    let mut i = ExclusiveIsize::new(-5);
    assert_eq!(i.load(Relaxed), -5);
    let l = i.load_linked(Relaxed);
    assert_eq!(l.get(), -5);
    assert!(l.store_conditional(&mut i, 6, Relaxed).is_none());
    assert_eq!(i.load(Relaxed), 6);
    assert_eq!(usize::from_u64(17), 17);
    assert_eq!(17usize.to_u64(), 17);
    assert_eq!((-1isize).to_u64(), u64::MAX);
    assert_eq!(isize::from_u64(u64::MAX), -1);
    // a flag is read back as true from the word 0
    assert_eq!(true.to_u64(), 1);
    assert_eq!(false.to_u64(), 0);
    assert_eq!(bool::from_u64(0), true);
    assert_eq!(bool::from_u64(1), false);
    let b = ExclusiveBool::new(false);
    assert_eq!(b.load(Relaxed), true);
    assert_eq!((LlscBool { combined: 1 << 63 }).get_bool(), true);
    assert_eq!((LlscBool { combined: (1 << 63) - 1 }).get_bool(), false);
    assert_eq!((LlscBool { combined: u64::MAX }).get_bool(), true);
}
