//! A bounded single-producer, single-consumer ring buffer.
//!
//! Each side keeps a cached copy of the other side's index and refreshes it
//! only when the cached value says that the ring is full (producer) or empty
//! (consumer). The slots and indices are plain data here; the producer and
//! the consumer are handles that are passed the ring they work on.

use vstd::prelude::*;
use crate::sync::order::{fifo_after, taken, Op};

verus! {

/// If `b` lies less than `n` above `a`, the two differ modulo `n`.
pub proof fn lemma_mod_apart(a: int, b: int, n: int)
    requires
        0 <= a < b < a + n,
    ensures
        a % n != b % n,
{
    vstd::arithmetic::div_mod::lemma_fundamental_div_mod(a, n);
    vstd::arithmetic::div_mod::lemma_fundamental_div_mod(b, n);
    let qa = a / n;
    let qb = b / n;
    if a % n == b % n {
        assert(b - a == n * (qb - qa)) by (nonlinear_arith)
            requires
                a == n * qa + a % n,
                b == n * qb + b % n,
                a % n == b % n,
        ;
        assert(false) by (nonlinear_arith)
            requires
                b - a == n * (qb - qa),
                0 < b - a < n,
        ;
    }
}

/// If `b` lies at most `n` above `a`, the two agree modulo `n` exactly when
/// they are equal or `n` apart.
pub proof fn lemma_mod_same(a: int, b: int, n: int)
    requires
        0 <= a <= b <= a + n,
        0 < n,
    ensures
        (a % n == b % n) <==> (b == a || b == a + n),
{
    if a < b && b < a + n {
        lemma_mod_apart(a, b, n);
    }
    if b == a + n {
        vstd::arithmetic::div_mod::lemma_mod_add_multiples_vanish(a, n);
    }
}

/// Stepping an index forward by one slot, wrapping at `n`.
pub proof fn lemma_mod_succ(a: int, n: int)
    requires
        0 <= a,
        0 < n,
    ensures
        (a + 1) % n == (if a % n + 1 == n { 0 } else { a % n + 1 }),
{
    vstd::arithmetic::div_mod::lemma_fundamental_div_mod(a, n);
    let q = a / n;
    let r = a % n;
    if r + 1 == n {
        assert(a + 1 == n * (q + 1)) by (nonlinear_arith)
            requires
                a == n * q + r,
                r + 1 == n,
        ;
        vstd::arithmetic::div_mod::lemma_mod_multiples_basic(q + 1, n);
        assert(n * (q + 1) == (q + 1) * n) by (nonlinear_arith);
    } else {
        assert(a + 1 == q * n + (r + 1)) by (nonlinear_arith)
            requires
                a == n * q + r,
        ;
        vstd::arithmetic::div_mod::lemma_fundamental_div_mod_converse(a + 1, n, q, r + 1);
    }
}

/// A bounded wait-free ring of `capacity() + 1` slots, one of which always
/// stays empty so that a full ring and an empty one can be told apart.
pub struct SpscBufferQueue<T> {
    data: Vec<Option<T>>,
    size: usize,
    // consumer side
    head: usize,
    tail_cache: usize,
    prod_alive: bool,
    // producer side
    tail: usize,
    head_cache: usize,
    cons_alive: bool,
    // how many items were ever pushed and popped, and the counts that the
    // two cached indices stand for
    pushed: Ghost<nat>,
    popped: Ghost<nat>,
    head_seen: Ghost<nat>,
    tail_seen: Ghost<nat>,
}

/// The consumer's handle on a ring.
pub struct BufferConsumer {
    _private: (),
}

/// The producer's handle on a ring.
pub struct BufferProducer {
    _private: (),
}

impl<T> SpscBufferQueue<T> {
    /// The number of slots of the ring.
    pub closed spec fn slots(&self) -> nat {
        self.size as nat
    }

    /// Structural invariant of the ring.
    pub closed spec fn wf(&self) -> bool {
        let n = self.size as int;
        &&& n >= 1
        &&& self.data@.len() == n
        &&& self.popped@ <= self.pushed@
        &&& self.pushed@ - self.popped@ <= n - 1
        &&& self.head as int == self.popped@ as int % n
        &&& self.tail as int == self.pushed@ as int % n
        &&& self.head_seen@ <= self.popped@
        &&& self.pushed@ - self.head_seen@ <= n - 1
        &&& self.head_cache as int == self.head_seen@ as int % n
        &&& self.popped@ <= self.tail_seen@ <= self.pushed@
        &&& self.tail_cache as int == self.tail_seen@ as int % n
        &&& forall|k: int|
            self.popped@ <= k < self.pushed@ ==> (#[trigger] self.data@[k % n]) is Some
    }

    /// The items in the ring, oldest first.
    pub closed spec fn view(&self) -> Seq<T> {
        Seq::new(
            (self.pushed@ - self.popped@) as nat,
            |i: int| self.data@[(self.popped@ + i) % (self.size as int)]->0,
        )
    }

    /// The index of the slot to read next, which the consumer moves.
    pub closed spec fn head_index(&self) -> usize {
        self.head
    }

    /// The index of the slot to write next, which the producer moves.
    pub closed spec fn tail_index(&self) -> usize {
        self.tail
    }

    /// The producer's copy of the head index.
    pub closed spec fn head_cached(&self) -> usize {
        self.head_cache
    }

    /// The consumer's copy of the tail index.
    pub closed spec fn tail_cached(&self) -> usize {
        self.tail_cache
    }

    /// The index that follows `i`, around the ring.
    pub open spec fn index_after(&self, i: usize) -> usize {
        if i + 1 == self.slots() {
            0
        } else {
            (i + 1) as usize
        }
    }

    /// What a push, which succeeds or not, makes of the indices: the
    /// producer reads the head index only if its copy says that the ring
    /// is full, and then keeps what it read as its copy; it moves the tail
    /// index on if it pushes; the consumer's index and copy stay.
    pub open spec fn push_indices(&self, then: &Self, pushed: bool) -> bool {
        &&& then.head_index() == self.head_index()
        &&& then.tail_cached() == self.tail_cached()
        &&& then.head_cached() == (if self.index_after(self.tail_index()) == self.head_cached() {
            self.head_index()
        } else {
            self.head_cached()
        })
        &&& then.tail_index() == (if pushed {
            self.index_after(self.tail_index())
        } else {
            self.tail_index()
        })
    }

    /// What a pop, which succeeds or not, makes of the indices: the
    /// consumer reads the tail index only if its copy says that the ring
    /// is empty, and then keeps what it read as its copy; it moves the
    /// head index on if it pops; the producer's index and copy stay.
    pub open spec fn pop_indices(&self, then: &Self, popped: bool) -> bool {
        &&& then.tail_index() == self.tail_index()
        &&& then.head_cached() == self.head_cached()
        &&& then.tail_cached() == (if self.head_index() == self.tail_cached() {
            self.tail_index()
        } else {
            self.tail_cached()
        })
        &&& then.head_index() == (if popped {
            self.index_after(self.head_index())
        } else {
            self.head_index()
        })
    }

    /// Whether a producer handle is out.
    pub closed spec fn producer_alive(&self) -> bool {
        self.prod_alive
    }

    /// Whether a consumer handle is out.
    pub closed spec fn consumer_alive(&self) -> bool {
        self.cons_alive
    }

    /// The most items the ring holds at once.
    pub open spec fn spec_capacity(&self) -> nat {
        (self.slots() - 1) as nat
    }

    /// The number of slots that a ring asked to hold `size` items is given.
    pub open spec fn slots_for(size: usize) -> nat {
        if size <= isize::MAX - 1 {
            (size + 1) as nat
        } else {
            isize::MAX as nat
        }
    }

    /// Proves to a caller that a valid ring has at least one slot and holds
    /// no more items than its capacity.
    pub proof fn lemma_len_bounded(&self)
        requires
            self.wf(),
        ensures
            self.slots() >= 1,
            self@.len() <= self.spec_capacity(),
    {
    }

    /// Creates an empty ring that holds up to `size` items (at most
    /// `isize::MAX - 1`), with both of its handles.
    pub fn new(size: usize) -> (r: (SpscBufferQueue<T>, BufferProducer, BufferConsumer))
        ensures
            r.0.wf(),
            r.0@ == Seq::<T>::empty(),
            r.0.slots() == Self::slots_for(size),
            r.0.producer_alive(),
            r.0.consumer_alive(),
    {
        let cap: usize = if size <= isize::MAX as usize - 1 {
            size
        } else {
            isize::MAX as usize - 1
        };
        let slots: usize = cap + 1;
        let mut data: Vec<Option<T>> = Vec::new();
        let mut i: usize = 0;
        while i < slots
            invariant
                i <= slots,
                data@.len() == i,
            decreases slots - i,
        {
            data.push(None);
            i = i + 1;
        }
        let q = SpscBufferQueue {
            data,
            size: slots,
            head: 0,
            tail_cache: 0,
            prod_alive: true,
            tail: 0,
            head_cache: 0,
            cons_alive: true,
            pushed: Ghost(0),
            popped: Ghost(0),
            head_seen: Ghost(0),
            tail_seen: Ghost(0),
        };
        assert(q@ =~= Seq::<T>::empty());
        (q, BufferProducer { _private: () }, BufferConsumer { _private: () })
    }

    /// Builds a value with `ctor` and appends it, unless the ring is full.
    /// `ctor` is called only when there is room; otherwise it is handed back.
    pub fn try_construct<F: FnOnce() -> T>(&mut self, ctor: F) -> (r: Result<(), F>)
        requires
            old(self).wf(),
            ctor.requires(()),
        ensures
            final(self).wf(),
            final(self).slots() == old(self).slots(),
            final(self).producer_alive() == old(self).producer_alive(),
            final(self).consumer_alive() == old(self).consumer_alive(),
            r is Ok <==> old(self)@.len() < old(self).spec_capacity(),
            r is Ok ==> final(self)@.len() == old(self)@.len() + 1
                && final(self)@.drop_last() == old(self)@
                && ctor.ensures((), final(self)@.last()),
            r matches Err(f) ==> f == ctor && final(self)@ == old(self)@,
            old(self).push_indices(final(self), r is Ok),
    {
        let ghost n = self.size as int;
        let ctail: usize = self.tail;
        let mut next_tail: usize = ctail + 1;
        if next_tail == self.size {
            next_tail = 0;
        }
        proof {
            lemma_mod_succ(self.pushed@ as int, n);
            lemma_mod_same(self.head_seen@ as int, self.pushed@ as int + 1, n);
            lemma_mod_same(self.popped@ as int, self.pushed@ as int + 1, n);
        }
        if next_tail == self.head_cache {
            let cur_head: usize = self.head;
            self.head_cache = cur_head;
            self.head_seen = Ghost(self.popped@);
            if next_tail == cur_head {
                assert(self@ =~= old(self)@);
                return Err(ctor);
            }
        }
        let ghost before = *self;
        let value = ctor();
        self.data[ctail] = Some(value);
        self.tail = next_tail;
        self.pushed = Ghost((self.pushed@ + 1) as nat);
        proof {
            let p = before.pushed@ as int;
            assert forall|k: int| self.popped@ <= k < self.pushed@ implies (
            #[trigger] self.data@[k % n]) is Some by {
                if k < p {
                    lemma_mod_apart(k, p, n);
                    assert(before.data@[k % n] is Some);
                }
            }
            assert forall|i: int| 0 <= i < old(self)@.len() implies self@.drop_last()[i]
                == old(self)@[i] by {
                lemma_mod_apart(self.popped@ + i, p, n);
            }
            assert(self@.drop_last() =~= old(self)@);
            assert(self@.last() == value);
        }
        Ok(())
    }

    /// Appends `val`, or hands it back when the ring is full.
    pub fn try_push(&mut self, val: T) -> (r: Result<(), T>)
        requires
            old(self).wf(),
        ensures
            final(self).wf(),
            final(self).slots() == old(self).slots(),
            final(self).producer_alive() == old(self).producer_alive(),
            final(self).consumer_alive() == old(self).consumer_alive(),
            r is Ok <==> old(self)@.len() < old(self).spec_capacity(),
            r is Ok ==> final(self)@ == old(self)@.push(val) && final(self)@ == fifo_after(
                old(self)@,
                Op::Push(val),
            ),
            r matches Err(v) ==> v == val && final(self)@ == old(self)@,
            old(self).push_indices(final(self), r is Ok),
    {
        let ghost n = self.size as int;
        let ctail: usize = self.tail;
        let mut next_tail: usize = ctail + 1;
        if next_tail == self.size {
            next_tail = 0;
        }
        proof {
            lemma_mod_succ(self.pushed@ as int, n);
            lemma_mod_same(self.head_seen@ as int, self.pushed@ as int + 1, n);
            lemma_mod_same(self.popped@ as int, self.pushed@ as int + 1, n);
        }
        if next_tail == self.head_cache {
            let cur_head: usize = self.head;
            self.head_cache = cur_head;
            self.head_seen = Ghost(self.popped@);
            if next_tail == cur_head {
                assert(self@ =~= old(self)@);
                return Err(val);
            }
        }
        let ghost before = *self;
        self.data[ctail] = Some(val);
        self.tail = next_tail;
        self.pushed = Ghost((self.pushed@ + 1) as nat);
        proof {
            let p = before.pushed@ as int;
            assert forall|k: int| self.popped@ <= k < self.pushed@ implies (
            #[trigger] self.data@[k % n]) is Some by {
                if k < p {
                    lemma_mod_apart(k, p, n);
                    assert(before.data@[k % n] is Some);
                }
            }
            assert forall|i: int| 0 <= i < old(self)@.len() implies self@[i] == old(self)@[i] by {
                lemma_mod_apart(self.popped@ + i, p, n);
            }
            assert(self@ =~= old(self)@.push(val));
        }
        Ok(())
    }

    /// Removes the oldest item, or returns `None` when the ring is empty.
    pub fn try_pop(&mut self) -> (r: Option<T>)
        requires
            old(self).wf(),
        ensures
            final(self).wf(),
            final(self).slots() == old(self).slots(),
            final(self).producer_alive() == old(self).producer_alive(),
            final(self).consumer_alive() == old(self).consumer_alive(),
            r == taken(old(self)@, Op::Pop),
            final(self)@ == fifo_after(old(self)@, Op::Pop),
            r is None <==> old(self)@.len() == 0,
            r is None ==> final(self)@ == old(self)@,
            r matches Some(v) ==> v == old(self)@[0] && final(self)@ == old(self)@.subrange(
                1,
                old(self)@.len() as int,
            ),
            old(self).pop_indices(final(self), r is Some),
    {
        let ghost n = self.size as int;
        let chead: usize = self.head;
        proof {
            lemma_mod_same(self.popped@ as int, self.tail_seen@ as int, n);
            lemma_mod_same(self.popped@ as int, self.pushed@ as int, n);
        }
        if chead == self.tail_cache {
            let cur_tail: usize = self.tail;
            self.tail_cache = cur_tail;
            self.tail_seen = Ghost(self.pushed@);
            if chead == cur_tail {
                assert(self@ =~= old(self)@);
                return None;
            }
        }
        let mut next_head: usize = chead + 1;
        if next_head == self.size {
            next_head = 0;
        }
        let ghost before = *self;
        assert(self.data@[self.popped@ as int % n] is Some);
        let rval = self.data[chead].take();
        self.head = next_head;
        self.popped = Ghost((self.popped@ + 1) as nat);
        proof {
            let p = before.popped@ as int;
            lemma_mod_succ(p, n);
            assert forall|k: int| self.popped@ <= k < self.pushed@ implies (
            #[trigger] self.data@[k % n]) is Some by {
                lemma_mod_apart(p, k, n);
                assert(before.data@[k % n] is Some);
            }
            assert(rval == Some(old(self)@[0]));
            assert forall|i: int| 0 <= i < self@.len() implies self@[i] == old(self)@[i + 1] by {
                lemma_mod_apart(p, p + 1 + i, n);
            }
            assert(self@ =~= old(self)@.subrange(1, old(self)@.len() as int));
        }
        rval
    }

    /// The most items the ring holds at once.
    pub fn capacity(&self) -> (r: usize)
        requires
            self.wf(),
        ensures
            r == self.spec_capacity(),
    {
        self.size - 1
    }
}

impl BufferConsumer {
    /// Hands out a new producer handle if the last one was dropped.
    pub fn create_producer<T>(&self, q: &mut SpscBufferQueue<T>) -> (r: Option<BufferProducer>)
        requires
            old(q).wf(),
        ensures
            final(q).wf(),
            final(q)@ == old(q)@,
            final(q).slots() == old(q).slots(),
            final(q).producer_alive(),
            final(q).consumer_alive() == old(q).consumer_alive(),
            r is Some <==> !old(q).producer_alive(),
    {
        if q.prod_alive {
            return None;
        }
        q.prod_alive = true;
        assert(q@ =~= old(q)@);
        Some(BufferProducer { _private: () })
    }

    /// Whether a producer handle is out.
    pub fn is_producer_alive<T>(&self, q: &SpscBufferQueue<T>) -> (r: bool)
        ensures
            r == q.producer_alive(),
    {
        q.prod_alive
    }

    /// Removes the oldest item, or returns `None` when the ring is empty.
    pub fn try_pop<T>(&self, q: &mut SpscBufferQueue<T>) -> (r: Option<T>)
        requires
            old(q).wf(),
        ensures
            final(q).wf(),
            final(q).slots() == old(q).slots(),
            final(q).producer_alive() == old(q).producer_alive(),
            final(q).consumer_alive() == old(q).consumer_alive(),
            r == taken(old(q)@, Op::Pop),
            final(q)@ == fifo_after(old(q)@, Op::Pop),
            r is None <==> old(q)@.len() == 0,
            r is None ==> final(q)@ == old(q)@,
            r matches Some(v) ==> v == old(q)@[0] && final(q)@ == old(q)@.subrange(
                1,
                old(q)@.len() as int,
            ),
            old(q).pop_indices(final(q), r is Some),
    {
        q.try_pop()
    }

    /// The most items the ring holds at once.
    pub fn capacity<T>(&self, q: &SpscBufferQueue<T>) -> (r: usize)
        requires
            q.wf(),
        ensures
            r == q.spec_capacity(),
    {
        q.capacity()
    }

    /// Gives the handle up; the ring records that no consumer is left.
    pub fn disconnect<T>(self, q: &mut SpscBufferQueue<T>)
        requires
            old(q).wf(),
        ensures
            final(q).wf(),
            final(q)@ == old(q)@,
            final(q).slots() == old(q).slots(),
            !final(q).consumer_alive(),
            final(q).producer_alive() == old(q).producer_alive(),
    {
        q.cons_alive = false;
        assert(q@ =~= old(q)@);
    }
}

impl BufferProducer {
    /// Hands out a new consumer handle if the last one was dropped.
    pub fn create_consumer<T>(&self, q: &mut SpscBufferQueue<T>) -> (r: Option<BufferConsumer>)
        requires
            old(q).wf(),
        ensures
            final(q).wf(),
            final(q)@ == old(q)@,
            final(q).slots() == old(q).slots(),
            final(q).consumer_alive(),
            final(q).producer_alive() == old(q).producer_alive(),
            r is Some <==> !old(q).consumer_alive(),
    {
        if q.cons_alive {
            return None;
        }
        q.cons_alive = true;
        assert(q@ =~= old(q)@);
        Some(BufferConsumer { _private: () })
    }

    /// Whether a consumer handle is out.
    pub fn is_consumer_alive<T>(&self, q: &SpscBufferQueue<T>) -> (r: bool)
        ensures
            r == q.consumer_alive(),
    {
        q.cons_alive
    }

    /// Appends `val`. Returns `None` on success and hands `val` back when
    /// no consumer is left or the ring is full.
    pub fn try_push<T>(&self, q: &mut SpscBufferQueue<T>, val: T) -> (r: Option<T>)
        requires
            old(q).wf(),
        ensures
            final(q).wf(),
            final(q).slots() == old(q).slots(),
            final(q).producer_alive() == old(q).producer_alive(),
            final(q).consumer_alive() == old(q).consumer_alive(),
            r is None <==> old(q).consumer_alive() && old(q)@.len() < old(q).spec_capacity(),
            r is None ==> final(q)@ == old(q)@.push(val) && final(q)@ == fifo_after(
                old(q)@,
                Op::Push(val),
            ),
            r matches Some(v) ==> v == val && final(q)@ == old(q)@,
            old(q).consumer_alive() ==> old(q).push_indices(final(q), r is None),
            !old(q).consumer_alive() ==> final(q).head_index() == old(q).head_index()
                && final(q).tail_index() == old(q).tail_index() && final(q).head_cached()
                == old(q).head_cached() && final(q).tail_cached() == old(q).tail_cached(),
    {
        if !self.is_consumer_alive(q) {
            return Some(val);
        }
        match q.try_push(val) {
            Ok(_) => None,
            Err(v) => Some(v),
        }
    }

    /// Builds a value with `ctor` and appends it if a consumer is left and
    /// there is room; says whether it did. `ctor` is not called otherwise.
    pub fn try_construct<T, F: FnOnce() -> T>(&self, q: &mut SpscBufferQueue<T>, ctor: F) -> (r:
        bool)
        requires
            old(q).wf(),
            ctor.requires(()),
        ensures
            final(q).wf(),
            final(q).slots() == old(q).slots(),
            final(q).producer_alive() == old(q).producer_alive(),
            final(q).consumer_alive() == old(q).consumer_alive(),
            r <==> old(q).consumer_alive() && old(q)@.len() < old(q).spec_capacity(),
            r ==> final(q)@.len() == old(q)@.len() + 1 && final(q)@.drop_last() == old(q)@
                && ctor.ensures((), final(q)@.last()),
            !r ==> final(q)@ == old(q)@,
            old(q).consumer_alive() ==> old(q).push_indices(final(q), r),
            !old(q).consumer_alive() ==> final(q).head_index() == old(q).head_index()
                && final(q).tail_index() == old(q).tail_index() && final(q).head_cached()
                == old(q).head_cached() && final(q).tail_cached() == old(q).tail_cached(),
    {
        if !self.is_consumer_alive(q) {
            return false;
        }
        q.try_construct(ctor).is_ok()
    }

    /// The most items the ring holds at once.
    pub fn capacity<T>(&self, q: &SpscBufferQueue<T>) -> (r: usize)
        requires
            q.wf(),
        ensures
            r == q.spec_capacity(),
    {
        q.capacity()
    }

    /// Gives the handle up; the ring records that no producer is left.
    pub fn disconnect<T>(self, q: &mut SpscBufferQueue<T>)
        requires
            old(q).wf(),
        ensures
            final(q).wf(),
            final(q)@ == old(q)@,
            final(q).slots() == old(q).slots(),
            !final(q).producer_alive(),
            final(q).consumer_alive() == old(q).consumer_alive(),
    {
        q.prod_alive = false;
        assert(q@ =~= old(q)@);
    }
}

} // verus!
