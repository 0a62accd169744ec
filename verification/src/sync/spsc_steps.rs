//! The ring buffer of one producer and one consumer, one access to shared
//! memory at a time.
//!
//! `SpscBufferQueue` runs a push or a pop as one step. Here the two are
//! cut into the steps between which the other side may run. The producer
//! looks whether there is room, by its cached copy of the head index and,
//! if that says no, by the head index itself; it writes the slot; and
//! only then it moves the tail index on. The consumer looks whether there
//! is an item, by its cached copy of the tail index and, if that says no,
//! by the tail index itself; it reads the slot; and only then it moves the
//! head index on. The caller decides which side takes the next step.
//!
//! Whatever the order, the consumer reads no slot before it was written,
//! the producer writes no slot before it was read, and the items come out
//! in the order in which they went in.

use crate::sync::order::{fifo_after, taken, Op};
use crate::sync::spsc_bufferqueue::{lemma_mod_apart, lemma_mod_same, lemma_mod_succ};
use vstd::prelude::*;

verus! {

/// What the producer is about.
#[derive(Clone, Copy, Debug, PartialEq, Eq, Structural)]
pub enum Producing {
    /// Nothing.
    Idle,
    /// It has found room and has the item in hand.
    Write,
    /// It has written the slot and has not moved the tail index yet.
    Publish,
}

/// What the consumer is about.
#[derive(Clone, Copy, Debug, PartialEq, Eq, Structural)]
pub enum Consuming {
    /// Nothing.
    Idle,
    /// It has found an item and has not read the slot yet.
    Read,
    /// It has read the slot and has not moved the head index yet.
    Release,
}

/// A ring of slots, one of which always stays empty, with the two indices
/// that both sides see and what each side keeps for itself.
pub struct Ring<T> {
    slots: Vec<Option<T>>,
    size: usize,
    // what both sides see
    head: usize,
    tail: usize,
    // the producer's own
    head_cache: usize,
    hand: Option<T>,
    producing: Producing,
    // the consumer's own
    tail_cache: usize,
    consuming: Consuming,
    // how many items were ever published and read, how many slots were
    // ever released, and the counts that the two cached indices stand for
    pushed: Ghost<nat>,
    popped: Ghost<nat>,
    released: Ghost<nat>,
    head_seen: Ghost<nat>,
    tail_seen: Ghost<nat>,
}

impl<T> Ring<T> {
    /// The number of slots of the ring.
    pub closed spec fn slots(&self) -> nat {
        self.size as nat
    }

    /// The most items the ring holds at once.
    pub open spec fn spec_capacity(&self) -> nat {
        (self.slots() - 1) as nat
    }

    /// What the producer is about.
    pub closed spec fn producing(&self) -> Producing {
        self.producing
    }

    /// What the consumer is about.
    pub closed spec fn consuming(&self) -> Consuming {
        self.consuming
    }

    /// The number of slots that are taken, as the producer may find it:
    /// those of the items in the ring, and the one that the consumer has
    /// read and not released yet.
    pub closed spec fn occupied(&self) -> nat {
        (self.pushed@ - self.released@) as nat
    }

    /// The items in the ring, oldest first: those that were published and
    /// not read yet.
    pub closed spec fn view(&self) -> Seq<T> {
        Seq::new(
            (self.pushed@ - self.popped@) as nat,
            |i: int| self.slots@[(self.popped@ + i) % (self.size as int)]->0,
        )
    }

    /// The item that the producer is about to publish.
    pub closed spec fn in_hand(&self) -> Option<T> {
        match self.producing {
            Producing::Idle => None,
            Producing::Write => self.hand,
            Producing::Publish => self.slots@[self.pushed@ as int % (self.size as int)],
        }
    }

    /// The invariant of the ring.
    pub closed spec fn wf(&self) -> bool {
        let n = self.size as int;
        &&& n >= 1
        &&& self.slots@.len() == n
        &&& self.released@ <= self.popped@ <= self.pushed@
        &&& self.popped@ == self.released@ + (if self.consuming == Consuming::Release {
            1int
        } else {
            0int
        })
        &&& self.pushed@ - self.released@ <= n - 1
        &&& self.head as int == self.released@ as int % n
        &&& self.tail as int == self.pushed@ as int % n
        &&& self.head_seen@ <= self.released@
        &&& self.head_cache as int == self.head_seen@ as int % n
        &&& self.released@ <= self.tail_seen@ <= self.pushed@
        &&& self.tail_cache as int == self.tail_seen@ as int % n
        &&& self.consuming != Consuming::Idle ==> self.tail_seen@ > self.released@
        &&& self.pushed@ - self.head_seen@ <= n - 1
        &&& self.producing != Producing::Idle ==> self.pushed@ - self.head_seen@ <= n - 2
        &&& self.hand is Some <==> self.producing == Producing::Write
        &&& self.producing == Producing::Publish ==> self.slots@[self.pushed@ as int % n] is Some
        &&& forall|k: int|
            self.popped@ <= k < self.pushed@ ==> (#[trigger] self.slots@[k % n]) is Some
    }

    /// The ring holds no more items than its capacity, and the slots taken
    /// are those of its items and at most one more.
    pub proof fn lemma_bounded(&self)
        requires
            self.wf(),
        ensures
            self.slots() >= 1,
            self@.len() <= self.occupied() <= self.spec_capacity(),
            self.occupied() == self@.len() + (if self.consuming() == Consuming::Release {
                1int
            } else {
                0int
            }),
            self.consuming() == Consuming::Read ==> self@.len() > 0,
            self.producing() != Producing::Idle ==> self.occupied() < self.spec_capacity()
                && self.in_hand() is Some,
            self.producing() == Producing::Idle ==> self.in_hand() is None,
    {
    }

    /// An empty ring that holds up to `size` items (at most
    /// `isize::MAX - 1`), with both sides idle.
    pub fn new(size: usize) -> (r: Ring<T>)
        ensures
            r.wf(),
            r@ == Seq::<T>::empty(),
            r.occupied() == 0,
            r.slots() == (if size <= isize::MAX - 1 {
                size + 1
            } else {
                isize::MAX as int
            }),
            r.producing() == Producing::Idle,
            r.consuming() == Consuming::Idle,
    {
        let cap: usize = if size <= isize::MAX as usize - 1 {
            size
        } else {
            isize::MAX as usize - 1
        };
        let n: usize = cap + 1;
        let mut slots: Vec<Option<T>> = Vec::new();
        let mut i: usize = 0;
        while i < n
            invariant
                i <= n,
                slots@.len() == i,
            decreases n - i,
        {
            slots.push(None);
            i = i + 1;
        }
        let r = Ring {
            slots,
            size: n,
            head: 0,
            tail: 0,
            head_cache: 0,
            hand: None,
            producing: Producing::Idle,
            tail_cache: 0,
            consuming: Consuming::Idle,
            pushed: Ghost(0),
            popped: Ghost(0),
            released: Ghost(0),
            head_seen: Ghost(0),
            tail_seen: Ghost(0),
        };
        assert(r@ =~= Seq::<T>::empty());
        r
    }

    /// What the producer is about.
    pub fn producer(&self) -> (p: Producing)
        ensures
            p == self.producing(),
    {
        self.producing
    }

    /// What the consumer is about.
    pub fn consumer(&self) -> (c: Consuming)
        ensures
            c == self.consuming(),
    {
        self.consuming
    }

    /// The index that follows `i`, around the ring.
    fn after(&self, i: usize) -> (next: usize)
        requires
            self.size >= 1,
            i < self.size,
        ensures
            next == (if i + 1 == self.size {
                0
            } else {
                i + 1
            }),
    {
        if i + 1 == self.size {
            0
        } else {
            i + 1
        }
    }

    /// First step of a push: the producer, which is idle, looks whether
    /// there is room for `value`. It goes by its copy of the head index,
    /// and reads the head index itself only when the copy says that the
    /// ring is full. If the ring is full, `value` is handed back; else the
    /// producer keeps it in hand.
    pub fn push_check(&mut self, value: T) -> (back: Option<T>)
        requires
            old(self).wf(),
            old(self).producing() == Producing::Idle,
        ensures
            final(self).wf(),
            final(self).slots() == old(self).slots(),
            back is None <==> old(self).occupied() < old(self).spec_capacity(),
            back is Some ==> back == Some(value) && final(self).producing() == Producing::Idle,
            back is None ==> final(self).producing() == Producing::Write && final(self).in_hand()
                == Some(value),
            final(self)@ == old(self)@,
            final(self).occupied() == old(self).occupied(),
            final(self).consuming() == old(self).consuming(),
    {
        let ghost n = self.size as int;
        proof {
            lemma_mod_succ(self.pushed@ as int, n);
            lemma_mod_same(self.head_seen@ as int, self.pushed@ as int + 1, n);
            lemma_mod_same(self.released@ as int, self.pushed@ as int + 1, n);
        }
        let next_tail: usize = self.after(self.tail);
        if next_tail == self.head_cache {
            let cur_head: usize = self.head;
            self.head_cache = cur_head;
            self.head_seen = Ghost(self.released@);
            if next_tail == cur_head {
                assert(self@ =~= old(self)@);
                return Some(value);
            }
        }
        self.hand = Some(value);
        self.producing = Producing::Write;
        assert(self@ =~= old(self)@);
        None
    }

    /// Second step of a push: the producer writes the item that it has in
    /// hand into the slot at the tail index. The consumer does not see it
    /// yet.
    pub fn push_write(&mut self)
        requires
            old(self).wf(),
            old(self).producing() == Producing::Write,
        ensures
            final(self).wf(),
            final(self).slots() == old(self).slots(),
            final(self).producing() == Producing::Publish,
            final(self).in_hand() == old(self).in_hand(),
            final(self)@ == old(self)@,
            final(self).occupied() == old(self).occupied(),
            final(self).consuming() == old(self).consuming(),
    {
        let ghost n = self.size as int;
        let ghost p = self.pushed@ as int;
        let at: usize = self.tail;
        let value = self.hand.take();
        self.slots[at] = value;
        self.producing = Producing::Publish;
        proof {
            assert forall|k: int| self.popped@ <= k < self.pushed@ implies (
            #[trigger] self.slots@[k % n]) is Some && self.slots@[k % n] == old(self).slots@[k
                % n] by {
                lemma_mod_apart(k, p, n);
                assert(old(self).slots@[k % n] is Some);
            }
            assert forall|i: int| 0 <= i < self@.len() implies self@[i] == old(self)@[i] by {
                lemma_mod_apart(self.popped@ + i, p, n);
            }
            assert(self@ =~= old(self)@);
        }
    }

    /// Last step of a push: the producer moves the tail index on. With
    /// this step the push takes effect: the item is the last in the ring.
    pub fn push_publish(&mut self)
        requires
            old(self).wf(),
            old(self).producing() == Producing::Publish,
        ensures
            final(self).wf(),
            final(self).slots() == old(self).slots(),
            final(self).producing() == Producing::Idle,
            old(self).in_hand() matches Some(value) && final(self)@ == fifo_after(
                old(self)@,
                Op::Push(value),
            ),
            final(self).occupied() == old(self).occupied() + 1,
            final(self).consuming() == old(self).consuming(),
    {
        let ghost n = self.size as int;
        let ghost p = self.pushed@ as int;
        proof {
            lemma_mod_succ(p, n);
        }
        let next_tail: usize = self.after(self.tail);
        self.tail = next_tail;
        self.pushed = Ghost((self.pushed@ + 1) as nat);
        self.producing = Producing::Idle;
        proof {
            assert forall|k: int| self.popped@ <= k < self.pushed@ implies (
            #[trigger] self.slots@[k % n]) is Some by {
                if k < p {
                    assert(old(self).slots@[k % n] is Some);
                }
            }
            assert(self@ =~= old(self)@.push(old(self).slots@[p % n]->0));
        }
    }

    /// First step of a pop: the consumer, which is idle, looks whether
    /// there is an item. It goes by its copy of the tail index, and reads
    /// the tail index itself only when the copy says that the ring is
    /// empty. Says whether there is an item.
    pub fn pop_check(&mut self) -> (found: bool)
        requires
            old(self).wf(),
            old(self).consuming() == Consuming::Idle,
        ensures
            final(self).wf(),
            final(self).slots() == old(self).slots(),
            found == (old(self)@.len() > 0),
            final(self).consuming() == (if found {
                Consuming::Read
            } else {
                Consuming::Idle
            }),
            final(self)@ == old(self)@,
            final(self).occupied() == old(self).occupied(),
            final(self).producing() == old(self).producing(),
            final(self).in_hand() == old(self).in_hand(),
    {
        let ghost n = self.size as int;
        proof {
            lemma_mod_same(self.released@ as int, self.tail_seen@ as int, n);
            lemma_mod_same(self.released@ as int, self.pushed@ as int, n);
        }
        let chead: usize = self.head;
        if chead == self.tail_cache {
            let cur_tail: usize = self.tail;
            self.tail_cache = cur_tail;
            self.tail_seen = Ghost(self.pushed@);
            if chead == cur_tail {
                assert(self@ =~= old(self)@);
                return false;
            }
        }
        self.consuming = Consuming::Read;
        assert(self@ =~= old(self)@);
        true
    }

    /// Second step of a pop: the consumer reads the slot at the head
    /// index. With this step the pop takes effect: the oldest item is out
    /// of the ring. Its slot is not free for the producer yet.
    pub fn pop_read(&mut self) -> (item: T)
        requires
            old(self).wf(),
            old(self).consuming() == Consuming::Read,
        ensures
            final(self).wf(),
            final(self).slots() == old(self).slots(),
            final(self).consuming() == Consuming::Release,
            Some(item) == taken(old(self)@, Op::Pop),
            final(self)@ == fifo_after(old(self)@, Op::Pop),
            final(self).occupied() == old(self).occupied(),
            final(self).producing() == old(self).producing(),
            final(self).in_hand() == old(self).in_hand(),
    {
        let ghost n = self.size as int;
        let ghost q = self.popped@ as int;
        let ghost p = self.pushed@ as int;
        let at: usize = self.head;
        proof {
            assert(self.slots@[q % n] is Some);
            if self.producing == Producing::Publish {
                lemma_mod_apart(q, p, n);
            }
        }
        let item = self.slots[at].take().unwrap();
        self.popped = Ghost((self.popped@ + 1) as nat);
        self.consuming = Consuming::Release;
        proof {
            assert forall|k: int| self.popped@ <= k < self.pushed@ implies (
            #[trigger] self.slots@[k % n]) is Some by {
                lemma_mod_apart(q, k, n);
                assert(old(self).slots@[k % n] is Some);
            }
            assert forall|i: int| 0 <= i < self@.len() implies self@[i] == old(self)@[i + 1] by {
                lemma_mod_apart(q, q + 1 + i, n);
            }
            assert(self@ =~= old(self)@.subrange(1, old(self)@.len() as int));
        }
        item
    }

    /// Last step of a pop: the consumer moves the head index on, which
    /// frees the slot for the producer.
    pub fn pop_release(&mut self)
        requires
            old(self).wf(),
            old(self).consuming() == Consuming::Release,
        ensures
            final(self).wf(),
            final(self).slots() == old(self).slots(),
            final(self).consuming() == Consuming::Idle,
            final(self)@ == old(self)@,
            final(self).occupied() == old(self).occupied() - 1,
            final(self).producing() == old(self).producing(),
            final(self).in_hand() == old(self).in_hand(),
    {
        let ghost n = self.size as int;
        proof {
            lemma_mod_succ(self.released@ as int, n);
        }
        let next_head: usize = self.after(self.head);
        self.head = next_head;
        self.released = Ghost((self.released@ + 1) as nat);
        self.consuming = Consuming::Idle;
        assert(self@ =~= old(self)@);
    }
}

} // verus!
