//! A queue of segments: each node of the queue is a block of `SEG_SIZE`
//! slots with two counters, of the slots claimed by pushes and of those
//! claimed by pops. Only when a block is full is a new one allocated.
//!
//! Items carry consecutive numbers from 0. The item numbered `c` lives in
//! slot `c % SEG_SIZE` of the block numbered `c / SEG_SIZE`.

use crate::mem::epoch::global::EpochState;
use crate::mem::epoch::heap::{Heap, Holder, RECORD_KIND};
use crate::mem::epoch::participants::successor;
use crate::sync::order::{fifo_after, taken, Op};
use crate::mem::epoch::{pin, Arena, Atomic, MemOrder, Owned, Shared};
use vstd::prelude::*;

verus! {

/// Slots per segment.
pub const SEG_SIZE: usize = 32;

/// The kind of the heap cells that hold segments.
pub const SEG_KIND: usize = 3;

/// A block of slots. `low` counts the slots that pops have claimed, `high`
/// those that pushes have claimed; a slot is ready once its item is
/// written.
pub struct Segment<T> {
    low: usize,
    data: Vec<Option<T>>,
    ready: Vec<bool>,
    high: usize,
    next: Atomic,
}

impl<T> Segment<T> {
    /// Whether the segment has its `SEG_SIZE` slots.
    pub closed spec fn sized(&self) -> bool {
        self.data@.len() == SEG_SIZE && self.ready@.len() == SEG_SIZE
    }

    /// Whether nothing was pushed to the segment yet.
    pub closed spec fn untouched(&self) -> bool {
        &&& self.sized()
        &&& self.low == 0
        &&& self.high == 0
        &&& self.next@ == 0
        &&& forall|i: int| 0 <= i < SEG_SIZE ==> !self.ready@[i]
    }

    /// A segment of empty slots.
    pub fn new() -> (s: Segment<T>)
        ensures
            s.untouched(),
    {
        let mut data: Vec<Option<T>> = Vec::new();
        let mut ready: Vec<bool> = Vec::new();
        let mut i: usize = 0;
        while i < SEG_SIZE
            invariant
                i <= SEG_SIZE,
                data@.len() == i,
                ready@.len() == i,
                forall|k: int| 0 <= k < i ==> !ready@[k],
            decreases SEG_SIZE - i,
        {
            data.push(None);
            ready.push(false);
            i = i + 1;
        }
        Segment { low: 0, data, ready, high: 0, next: Atomic::null() }
    }
}

/// The addresses in `chain` name distinct live cells of the segment kind
/// whose segments are in `segs`, each linked to the next and the last to
/// nothing.
spec fn chained<T>(segs: &Arena<Segment<T>>, heap: &Heap, chain: Seq<usize>) -> bool {
    &&& forall|i: int, j: int| 0 <= i < j < chain.len() ==> chain[i] != chain[j]
    &&& forall|i: int|
        0 <= i < chain.len() ==> heap.is_live(#[trigger] chain[i]) && heap.kind(chain[i])
            == SEG_KIND && segs.has(chain[i])
    &&& forall|i: int|
        0 <= i < chain.len() ==> (#[trigger] segs.at(chain[i])).next@ == successor(chain, i)
            && segs.at(chain[i]).sized()
}

/// What the slot of item number `c` holds, when `chain` starts with block
/// number `first`.
spec fn slot<T>(segs: &Arena<Segment<T>>, chain: Seq<usize>, first: int, c: int) -> Option<T> {
    segs.at(chain[c / 32 - first]).data@[c % 32]
}

/// Whether the slot of item number `c` is ready.
spec fn slot_ready<T>(segs: &Arena<Segment<T>>, chain: Seq<usize>, first: int, c: int) -> bool {
    segs.at(chain[c / 32 - first]).ready@[c % 32]
}

/// The counters of the segments agree with `popped` items taken and
/// `pushed` items added: the first segment's `low` and the last one's
/// `high` are where the next pop and the next push go, and the segments
/// between are full (their `high` is the number of slots or more) and
/// untouched by pops.
spec fn counted<T>(segs: &Arena<Segment<T>>, chain: Seq<usize>, popped: int, pushed: int) -> bool {
    &&& segs.at(chain[0]).low == popped % 32
    &&& segs.at(chain.last()).high == pushed % 32
    &&& forall|j: int| 1 <= j < chain.len() ==> (#[trigger] segs.at(chain[j])).low == 0
    &&& forall|j: int| 0 <= j < chain.len() - 1 ==> (#[trigger] segs.at(chain[j])).high >= 32
}

/// Every item from `lo` up to `hi` is in its slot, and the slot is ready.
spec fn filled<T>(
    segs: &Arena<Segment<T>>,
    chain: Seq<usize>,
    first: int,
    lo: int,
    hi: int,
) -> bool {
    forall|c: int|
        lo <= c < hi ==> (#[trigger] slot(segs, chain, first, c)) is Some && slot_ready(
            segs,
            chain,
            first,
            c,
        )
}

/// What one segment of a chain is.
proof fn lemma_seg<T>(segs: &Arena<Segment<T>>, heap: &Heap, chain: Seq<usize>, i: int)
    requires
        chained(segs, heap, chain),
        0 <= i < chain.len(),
    ensures
        heap.is_live(chain[i]),
        heap.kind(chain[i]) == SEG_KIND,
        segs.has(chain[i]),
        chain[i] != 0,
        segs.at(chain[i]).next@ == successor(chain, i),
        segs.at(chain[i]).sized(),
        forall|j: int| 0 <= j < chain.len() && j != i ==> chain[j] != chain[i],
{
    heap.lemma_null_is_free();
    assert forall|j: int| 0 <= j < chain.len() && j != i implies chain[j] != chain[i] by {
        if j < i {
            assert(chain[j] != chain[i]);
        } else {
            assert(chain[i] != chain[j]);
        }
    }
}

/// A chain stays a chain when its segments keep their links and sizes and
/// their cells stay live.
proof fn lemma_chained_framed<T>(
    s0: &Arena<Segment<T>>,
    s1: &Arena<Segment<T>>,
    h0: &Heap,
    h1: &Heap,
    chain: Seq<usize>,
)
    requires
        chained(s0, h0, chain),
        forall|i: int|
            0 <= i < chain.len() ==> s1.has(#[trigger] chain[i]) && s1.at(chain[i]).next == s0.at(
                chain[i],
            ).next && s1.at(chain[i]).sized(),
        forall|i: int|
            0 <= i < chain.len() ==> h1.is_live(#[trigger] chain[i]) && h1.kind(chain[i])
                == SEG_KIND,
    ensures
        chained(s1, h1, chain),
{
    assert forall|i: int| 0 <= i < chain.len() implies (#[trigger] s1.at(chain[i])).next@
        == successor(chain, i) && s1.at(chain[i]).sized() by {
        lemma_seg(s0, h0, chain, i);
        assert(s1.has(chain[i]));
    }
    assert forall|i: int| 0 <= i < chain.len() implies h1.is_live(#[trigger] chain[i]) && h1.kind(
        chain[i],
    ) == SEG_KIND && s1.has(chain[i]) by {
        assert(s1.has(chain[i]));
    }
}

/// Segments that keep their slots keep every item.
proof fn lemma_filled_framed<T>(
    s0: &Arena<Segment<T>>,
    s1: &Arena<Segment<T>>,
    chain: Seq<usize>,
    first: int,
    lo: int,
    hi: int,
)
    requires
        32 * first <= lo,
        hi <= 32 * (first + chain.len()),
        forall|j: int|
            0 <= j < chain.len() ==> (#[trigger] s1.at(chain[j])).data == s0.at(chain[j]).data
                && s1.at(chain[j]).ready == s0.at(chain[j]).ready,
    ensures
        forall|c: int|
            lo <= c < hi ==> slot(s1, chain, first, c) == slot(s0, chain, first, c) && slot_ready(
                s1,
                chain,
                first,
                c,
            ) == slot_ready(s0, chain, first, c),
{
    assert forall|c: int| lo <= c < hi implies slot(s1, chain, first, c) == slot(
        s0,
        chain,
        first,
        c,
    ) && slot_ready(s1, chain, first, c) == slot_ready(s0, chain, first, c) by {
        let j = c / 32 - first;
        assert(s1.at(chain[j]).data == s0.at(chain[j]).data);
    }
}

/// Writing or emptying one slot of one segment of a chain changes what
/// that item's slot holds and no other item.
proof fn lemma_slot_written<T>(
    s0: &Arena<Segment<T>>,
    s1: &Arena<Segment<T>>,
    chain: Seq<usize>,
    first: int,
    at: int,
    lo: int,
    hi: int,
)
    requires
        forall|i: int, j: int| 0 <= i < j < chain.len() ==> chain[i] != chain[j],
        32 * first <= lo,
        hi <= 32 * (first + chain.len()),
        32 * first <= at < 32 * (first + chain.len()),
        s0.at(chain[at / 32 - first]).sized(),
        s1.at(chain[at / 32 - first]).sized(),
        forall|k: int|
            #![trigger s1.at(chain[at / 32 - first]).data@[k]]
            #![trigger s1.at(chain[at / 32 - first]).ready@[k]]
            0 <= k < 32 && k != at % 32 ==> s1.at(chain[at / 32 - first]).data@[k] == s0.at(
                chain[at / 32 - first],
            ).data@[k] && s1.at(chain[at / 32 - first]).ready@[k] == s0.at(
                chain[at / 32 - first],
            ).ready@[k],
        forall|j: int|
            0 <= j < chain.len() && j != at / 32 - first ==> s0.same_at(s1, #[trigger] chain[j]),
        forall|j: int| 0 <= j < chain.len() ==> s0.has(#[trigger] chain[j]),
    ensures
        forall|c: int|
            lo <= c < hi && c != at ==> slot(s1, chain, first, c) == slot(s0, chain, first, c)
                && slot_ready(s1, chain, first, c) == slot_ready(s0, chain, first, c),
{
    let ja = at / 32 - first;
    assert forall|c: int| lo <= c < hi && c != at implies slot(s1, chain, first, c) == slot(
        s0,
        chain,
        first,
        c,
    ) && slot_ready(s1, chain, first, c) == slot_ready(s0, chain, first, c) by {
        let j = c / 32 - first;
        if j != ja {
            assert(s0.same_at(s1, chain[j]));
            assert(s0.has(chain[j]));
        } else {
            assert(c % 32 != at % 32);
        }
    }
}

/// Appending a segment to the chain moves no item.
proof fn lemma_slots_extended<T>(
    segs: &Arena<Segment<T>>,
    chain: Seq<usize>,
    a: usize,
    first: int,
    lo: int,
    hi: int,
)
    requires
        32 * first <= lo,
        hi <= 32 * (first + chain.len()),
    ensures
        forall|c: int|
            lo <= c < hi ==> slot(segs, chain.push(a), first, c) == slot(segs, chain, first, c)
                && slot_ready(segs, chain.push(a), first, c) == slot_ready(segs, chain, first, c),
{
    assert forall|c: int| lo <= c < hi implies slot(segs, chain.push(a), first, c) == slot(
        segs,
        chain,
        first,
        c,
    ) && slot_ready(segs, chain.push(a), first, c) == slot_ready(segs, chain, first, c) by {
        let j = c / 32 - first;
        assert(chain.push(a)[j] == chain[j]);
    }
}

/// Dropping the first segment of the chain moves no item of the later
/// ones.
proof fn lemma_slots_cut<T>(
    segs: &Arena<Segment<T>>,
    chain: Seq<usize>,
    first: int,
    lo: int,
    hi: int,
)
    requires
        chain.len() >= 1,
        32 * (first + 1) <= lo,
        hi <= 32 * (first + chain.len()),
    ensures
        forall|c: int|
            lo <= c < hi ==> slot(segs, chain.subrange(1, chain.len() as int), first + 1, c)
                == slot(segs, chain, first, c) && slot_ready(
                segs,
                chain.subrange(1, chain.len() as int),
                first + 1,
                c,
            ) == slot_ready(segs, chain, first, c),
{
    let rest = chain.subrange(1, chain.len() as int);
    assert forall|c: int| lo <= c < hi implies slot(segs, rest, first + 1, c) == slot(
        segs,
        chain,
        first,
        c,
    ) && slot_ready(segs, rest, first + 1, c) == slot_ready(segs, chain, first, c) by {
        let j = c / 32 - first;
        assert(rest[j - 1] == chain[j]);
    }
}

/// A queue of segments.
pub struct SegQueue<T> {
    head: Atomic,
    tail: Atomic,
    segs: Arena<Segment<T>>,
    chain: Ghost<Seq<usize>>,
    pushed: Ghost<int>,
    popped: Ghost<int>,
}

impl<T> SegQueue<T> {
    /// The addresses of the segments of the queue, from the head on.
    pub closed spec fn nodes(&self) -> Seq<usize> {
        self.chain@
    }

    /// The number of items ever pushed.
    pub closed spec fn pushed(&self) -> int {
        self.pushed@
    }

    /// The number of items ever popped.
    pub closed spec fn popped(&self) -> int {
        self.popped@
    }

    spec fn first(&self) -> int {
        self.popped@ / 32
    }

    /// The items in the queue, oldest first.
    pub closed spec fn view(&self) -> Seq<T> {
        Seq::new(
            (self.pushed@ - self.popped@) as nat,
            |i: int| slot(&self.segs, self.chain@, self.first(), self.popped@ + i)->0,
        )
    }

    /// The queue is in order in `heap`: its segments are distinct live
    /// cells of the segment kind, linked in a chain from the head to the
    /// tail; there are as many as the items pushed and popped ask for, and
    /// every item that was pushed and not popped is in its slot.
    pub closed spec fn wf(&self, heap: &Heap) -> bool {
        &&& self.shaped(heap, self.pushed@)
        &&& filled(&self.segs, self.chain@, self.first(), self.popped@, self.pushed@)
    }

    /// The segments are as a queue in order has them when `pushed` slots
    /// were claimed by pushes, whether or not all of them are written.
    spec fn shaped(&self, heap: &Heap, pushed: int) -> bool {
        &&& self.segs.kind() == SEG_KIND
        &&& 0 <= self.popped@ <= pushed
        &&& self.chain@.len() == pushed / 32 - self.first() + 1
        &&& self.head@ == self.chain@[0]
        &&& self.tail@ == self.chain@.last()
        &&& chained(&self.segs, heap, self.chain@)
        &&& counted(&self.segs, self.chain@, self.popped@, pushed)
    }

    /// A queue in order stays in order when the heap changes, as long as
    /// its segments stay live cells of their kind.
    pub proof fn lemma_wf_framed(&self, h0: &Heap, h1: &Heap)
        requires
            self.wf(h0),
            forall|i: int|
                0 <= i < self.nodes().len() ==> h1.is_live(#[trigger] self.nodes()[i]) && h1.kind(
                    self.nodes()[i],
                ) == h0.kind(self.nodes()[i]),
        ensures
            self.wf(h1),
    {
        assert forall|i: int| 0 <= i < self.chain@.len() implies h1.is_live(
            #[trigger] self.chain@[i],
        ) && h1.kind(self.chain@[i]) == SEG_KIND by {
            lemma_seg(&self.segs, h0, self.chain@, i);
            assert(h1.is_live(self.nodes()[i]));
        }
        assert forall|i: int| 0 <= i < self.chain@.len() implies self.segs.has(
            #[trigger] self.chain@[i],
        ) && self.segs.at(self.chain@[i]).next == self.segs.at(self.chain@[i]).next
            && self.segs.at(self.chain@[i]).sized() by {
            lemma_seg(&self.segs, h0, self.chain@, i);
        }
        lemma_chained_framed(&self.segs, &self.segs, h0, h1, self.chain@);
    }

    /// The segments of a queue in order are live cells that hold no
    /// participant record, and the queue holds what was pushed and not
    /// popped.
    pub proof fn lemma_nodes_live(&self, heap: &Heap)
        requires
            self.wf(heap),
        ensures
            self@.len() == self.pushed() - self.popped(),
            0 <= self.popped() <= self.pushed(),
            self.nodes().len() == self.pushed() / 32 - self.popped() / 32 + 1,
            forall|i: int|
                0 <= i < self.nodes().len() ==> heap.is_live(#[trigger] self.nodes()[i])
                    && heap.kind(self.nodes()[i]) == SEG_KIND,
    {
    }

    /// A step of the epoch scheme keeps a queue in order.
    pub proof fn lemma_wf_step(&self, s0: &EpochState, s1: &EpochState)
        requires
            self.wf(&s0.heap),
            s0.step(s1),
        ensures
            self.wf(&s1.heap),
    {
        assert forall|i: int| 0 <= i < self.nodes().len() implies s1.heap.is_live(
            #[trigger] self.nodes()[i],
        ) && s1.heap.kind(self.nodes()[i]) == s0.heap.kind(self.nodes()[i]) by {
            lemma_seg(&self.segs, &s0.heap, self.chain@, i);
            s0.lemma_step_keeps_live(s1, self.nodes()[i]);
        }
        self.lemma_wf_framed(&s0.heap, &s1.heap);
    }

    /// An empty queue: one segment that nothing was pushed to.
    pub fn new(state: &mut EpochState, me: usize) -> (q: SegQueue<T>)
        requires
            old(state).wf(),
            old(state).enrolled(me),
            old(state).in_critical(me) < usize::MAX,
        ensures
            q.wf(&final(state).heap),
            final(state).wf(),
            q@ == Seq::<T>::empty(),
            q.pushed() == 0,
            q.popped() == 0,
            final(state).enrolled(me),
            final(state).in_critical(me) == old(state).in_critical(me),
            old(state).keeps_live_but(final(state), Seq::empty()),
            forall|i: int|
                0 <= i < q.nodes().len() ==> !old(state).heap.is_live(#[trigger] q.nodes()[i]),
    {
        let mut q = SegQueue {
            head: Atomic::null(),
            tail: Atomic::null(),
            segs: Arena::new(SEG_KIND),
            chain: Ghost(Seq::empty()),
            pushed: Ghost(0),
            popped: Ghost(0),
        };
        let sentinel = Owned::new(Segment::new());
        let guard = pin(state, me);
        let ghost pinned = *state;
        let sentinel = q.head.store_and_ref(
            sentinel,
            MemOrder::Relaxed,
            &guard,
            &mut q.segs,
            &mut state.heap,
        );
        q.tail.store_shared(Some(sentinel), MemOrder::Relaxed);
        q.chain = Ghost(Seq::empty().push(sentinel.addr()));
        proof {
            pinned.lemma_allocated(state, sentinel.addr());
            assert(q@ =~= Seq::<T>::empty());
            pinned.lemma_record_inv(me);
            assert(state.participants.listed(me));
        }
        guard.release(state);
        proof {
            old(state).lemma_step_keeps(&pinned, Seq::empty());
            assert forall|a: usize|
                old(state).heap.is_live(a) && old(state).heap.kind(a) != RECORD_KIND implies (
            #[trigger] state.heap.is_live(a)) && state.heap.kind(a) == old(state).heap.kind(a) by {
                assert(pinned.heap.is_live(a));
                assert(pinned.heap.same_cell(&state.heap, a));
            }
            if old(state).heap.is_live(sentinel.addr()) {
                if old(state).heap.same_state(&pinned.heap, sentinel.addr()) {
                } else {
                    assert(pinned.heap.allocated(sentinel.addr()));
                }
            }
        }
        q
    }

    /// Everything but the segments is the same in `self` and `then`.
    spec fn same_ends(&self, then: &Self) -> bool {
        &&& then.head == self.head
        &&& then.tail == self.tail
        &&& then.chain == self.chain
        &&& then.pushed == self.pushed
        &&& then.popped == self.popped
        &&& then.segs.kind() == self.segs.kind()
    }

    /// Adds one to the count of the slots of the segment at `a` that pushes
    /// have claimed; returns the count before.
    fn fetch_add_high(&mut self, a: usize) -> (prev: usize)
        requires
            old(self).segs.has(a),
        ensures
            prev == old(self).segs.at(a).high,
            final(self).segs.has(a),
            final(self).segs.at(a).high == (if prev == usize::MAX {
                0
            } else {
                prev + 1
            }),
            final(self).segs.at(a).low == old(self).segs.at(a).low,
            final(self).segs.at(a).data == old(self).segs.at(a).data,
            final(self).segs.at(a).ready == old(self).segs.at(a).ready,
            final(self).segs.at(a).next == old(self).segs.at(a).next,
            forall|b: usize| b != a ==> old(self).segs.same_at(&final(self).segs, b),
            old(self).same_ends(final(self)),
    {
        let mut seg = self.segs.take(a);
        let ghost taken = self.segs;
        let prev: usize = seg.high;
        seg.high = prev.wrapping_add(1);
        self.segs.put(a, seg);
        proof {
            assert forall|b: usize| b != a implies old(self).segs.same_at(&self.segs, b) by {
                assert(old(self).segs.same_at(&taken, b));
                assert(taken.same_at(&self.segs, b));
            }
        }
        prev
    }

    /// Sets the count of the slots of the segment at `a` that pops have
    /// claimed to `new` if it is `current`; returns the count before.
    fn cas_low(&mut self, a: usize, current: usize, new: usize) -> (prev: usize)
        requires
            old(self).segs.has(a),
        ensures
            prev == old(self).segs.at(a).low,
            final(self).segs.has(a),
            final(self).segs.at(a).low == (if prev == current {
                new
            } else {
                prev
            }),
            final(self).segs.at(a).high == old(self).segs.at(a).high,
            final(self).segs.at(a).data == old(self).segs.at(a).data,
            final(self).segs.at(a).ready == old(self).segs.at(a).ready,
            final(self).segs.at(a).next == old(self).segs.at(a).next,
            forall|b: usize| b != a ==> old(self).segs.same_at(&final(self).segs, b),
            old(self).same_ends(final(self)),
    {
        let mut seg = self.segs.take(a);
        let ghost taken = self.segs;
        let prev: usize = seg.low;
        if prev == current {
            seg.low = new;
        }
        self.segs.put(a, seg);
        proof {
            assert forall|b: usize| b != a implies old(self).segs.same_at(&self.segs, b) by {
                assert(old(self).segs.same_at(&taken, b));
                assert(taken.same_at(&self.segs, b));
            }
        }
        prev
    }

    /// Writes `t` into slot `i` of the segment at `a` and marks the slot
    /// ready.
    fn write_slot(&mut self, a: usize, i: usize, t: T)
        requires
            old(self).segs.has(a),
            old(self).segs.at(a).sized(),
            i < SEG_SIZE,
        ensures
            final(self).segs.has(a),
            final(self).segs.at(a).sized(),
            final(self).segs.at(a).data@ == old(self).segs.at(a).data@.update(i as int, Some(t)),
            final(self).segs.at(a).ready@ == old(self).segs.at(a).ready@.update(i as int, true),
            final(self).segs.at(a).low == old(self).segs.at(a).low,
            final(self).segs.at(a).high == old(self).segs.at(a).high,
            final(self).segs.at(a).next == old(self).segs.at(a).next,
            forall|b: usize| b != a ==> old(self).segs.same_at(&final(self).segs, b),
            old(self).same_ends(final(self)),
    {
        let mut seg = self.segs.take(a);
        let ghost taken = self.segs;
        seg.data[i] = Some(t);
        seg.ready[i] = true;
        self.segs.put(a, seg);
        proof {
            assert forall|b: usize| b != a implies old(self).segs.same_at(&self.segs, b) by {
                assert(old(self).segs.same_at(&taken, b));
                assert(taken.same_at(&self.segs, b));
            }
        }
    }

    /// Takes the item out of slot `i` of the segment at `a`.
    fn take_slot(&mut self, a: usize, i: usize) -> (t: Option<T>)
        requires
            old(self).segs.has(a),
            old(self).segs.at(a).sized(),
            i < SEG_SIZE,
        ensures
            t == old(self).segs.at(a).data@[i as int],
            final(self).segs.has(a),
            final(self).segs.at(a).sized(),
            final(self).segs.at(a).data@ == old(self).segs.at(a).data@.update(i as int, None),
            final(self).segs.at(a).ready == old(self).segs.at(a).ready,
            final(self).segs.at(a).low == old(self).segs.at(a).low,
            final(self).segs.at(a).high == old(self).segs.at(a).high,
            final(self).segs.at(a).next == old(self).segs.at(a).next,
            forall|b: usize| b != a ==> old(self).segs.same_at(&final(self).segs, b),
            old(self).same_ends(final(self)),
    {
        let mut seg = self.segs.take(a);
        let ghost taken = self.segs;
        let t = seg.data[i].take();
        self.segs.put(a, seg);
        proof {
            assert forall|b: usize| b != a implies old(self).segs.same_at(&self.segs, b) by {
                assert(old(self).segs.same_at(&taken, b));
                assert(taken.same_at(&self.segs, b));
            }
        }
        t
    }

    /// Links the segment at `a` to `next`.
    fn set_next(&mut self, a: usize, next: Option<Shared>)
        requires
            old(self).segs.has(a),
        ensures
            final(self).segs.has(a),
            final(self).segs.at(a).next@ == crate::mem::epoch::opt_addr(next),
            final(self).segs.at(a).data == old(self).segs.at(a).data,
            final(self).segs.at(a).ready == old(self).segs.at(a).ready,
            final(self).segs.at(a).low == old(self).segs.at(a).low,
            final(self).segs.at(a).high == old(self).segs.at(a).high,
            forall|b: usize| b != a ==> old(self).segs.same_at(&final(self).segs, b),
            old(self).same_ends(final(self)),
    {
        let mut seg = self.segs.take(a);
        let ghost taken = self.segs;
        seg.next.store_shared(next, MemOrder::Release);
        self.segs.put(a, seg);
        proof {
            assert forall|b: usize| b != a implies old(self).segs.same_at(&self.segs, b) by {
                assert(old(self).segs.same_at(&taken, b));
                assert(taken.same_at(&self.segs, b));
            }
        }
    }

    /// What holds once slot `p % 32` of the last segment was claimed and
    /// written, when the segment has room left: the queue is in order with
    /// one more item.
    proof fn lemma_pushed_in_place(before: &Self, after: &Self, heap: &Heap, t: T)
        requires
            before.wf(heap),
            before.same_ends(&Self { pushed: before.pushed, ..*after }),
            after.pushed@ == before.pushed@ + 1,
            before.pushed@ % 32 + 1 < 32,
            after.segs.has(before.chain@.last()),
            after.segs.at(before.chain@.last()).sized(),
            after.segs.at(before.chain@.last()).data@ == before.segs.at(
                before.chain@.last(),
            ).data@.update(before.pushed@ % 32, Some(t)),
            after.segs.at(before.chain@.last()).ready@ == before.segs.at(
                before.chain@.last(),
            ).ready@.update(before.pushed@ % 32, true),
            after.segs.at(before.chain@.last()).low == before.segs.at(before.chain@.last()).low,
            after.segs.at(before.chain@.last()).high == before.pushed@ % 32 + 1,
            after.segs.at(before.chain@.last()).next == before.segs.at(before.chain@.last()).next,
            forall|b: usize|
                b != before.chain@.last() ==> before.segs.same_at(&after.segs, b),
        ensures
            after.wf(heap),
            after@ == before@.push(t),
    {
        let chain = before.chain@;
        let first = before.first();
        let p = before.pushed@;
        let q = before.popped@;
        let last = chain.len() - 1;
        assert(p / 32 - first == last);
        assert forall|j: int| 0 <= j < chain.len() implies before.segs.has(#[trigger] chain[j])
            && (j != last ==> before.segs.same_at(&after.segs, chain[j])) by {
            lemma_seg(&before.segs, heap, chain, j);
        }
        assert forall|i: int| 0 <= i < chain.len() implies after.segs.has(#[trigger] chain[i])
            && after.segs.at(chain[i]).next == before.segs.at(chain[i]).next && after.segs.at(
            chain[i],
        ).sized() by {
            lemma_seg(&before.segs, heap, chain, i);
        }
        assert forall|i: int| 0 <= i < chain.len() implies heap.is_live(#[trigger] chain[i])
            && heap.kind(chain[i]) == SEG_KIND by {
            lemma_seg(&before.segs, heap, chain, i);
        }
        lemma_chained_framed(&before.segs, &after.segs, heap, heap, chain);
        lemma_seg(&before.segs, heap, chain, last);
        lemma_slot_written(&before.segs, &after.segs, chain, first, p, q, p + 1);
        assert(slot(&after.segs, chain, first, p) == Some(t));
        assert(slot_ready(&after.segs, chain, first, p));
        assert forall|c: int| q <= c < p + 1 implies (#[trigger] slot(
            &after.segs,
            chain,
            first,
            c,
        )) is Some && slot_ready(&after.segs, chain, first, c) by {
            if c < p {
                assert(slot(&before.segs, chain, first, c) is Some);
            }
        }
        assert(counted(&after.segs, chain, q, p + 1)) by {
            assert forall|j: int| 1 <= j < chain.len() implies (#[trigger] after.segs.at(
                chain[j],
            )).low == 0 by {
                assert(before.segs.at(chain[j]).low == 0);
            }
            assert forall|j: int| 0 <= j < chain.len() - 1 implies (#[trigger] after.segs.at(
                chain[j],
            )).high >= 32 by {
                assert(before.segs.at(chain[j]).high >= 32);
            }
        }
        assert forall|i: int| 0 <= i < p - q implies after@[i] == before@[i] by {
            assert(slot(&after.segs, chain, first, q + i) == slot(
                &before.segs,
                chain,
                first,
                q + i,
            ));
        }
        assert(after@ =~= before@.push(t));
    }

    /// What holds once the last slot of the last segment was claimed and
    /// written and a fresh segment was linked behind it: the queue is in
    /// order with one more item and one more segment.
    proof fn lemma_pushed_linked(before: &Self, after: &Self, h0: &Heap, h1: &Heap, a: usize, t: T)
        requires
            before.wf(h0),
            after.head == before.head,
            after.tail@ == a,
            after.chain@ == before.chain@.push(a),
            after.popped == before.popped,
            after.segs.kind() == before.segs.kind(),
            after.pushed@ == before.pushed@ + 1,
            before.pushed@ % 32 + 1 == 32,
            !h0.allocated(a),
            h1.is_live(a),
            h1.kind(a) == SEG_KIND,
            forall|b: usize| b != a ==> h0.same_cell(h1, b),
            after.segs.has(a),
            after.segs.at(a).untouched(),
            after.segs.has(before.chain@.last()),
            after.segs.at(before.chain@.last()).sized(),
            after.segs.at(before.chain@.last()).data@ == before.segs.at(
                before.chain@.last(),
            ).data@.update(before.pushed@ % 32, Some(t)),
            after.segs.at(before.chain@.last()).ready@ == before.segs.at(
                before.chain@.last(),
            ).ready@.update(before.pushed@ % 32, true),
            after.segs.at(before.chain@.last()).low == before.segs.at(before.chain@.last()).low,
            after.segs.at(before.chain@.last()).high == 32,
            after.segs.at(before.chain@.last()).next@ == a,
            forall|b: usize|
                b != before.chain@.last() && b != a ==> before.segs.same_at(&after.segs, b),
        ensures
            after.wf(h1),
            after@ == before@.push(t),
    {
        let chain = before.chain@;
        let more = after.chain@;
        let first = before.first();
        let p = before.pushed@;
        let q = before.popped@;
        let last = chain.len() - 1;
        assert(p / 32 - first == last);
        assert((p + 1) / 32 - first == last + 1);
        assert forall|j: int| 0 <= j < chain.len() implies before.segs.has(#[trigger] chain[j])
            && chain[j] != a && h1.is_live(chain[j]) && h1.kind(chain[j]) == SEG_KIND && (j != last
            ==> before.segs.same_at(&after.segs, chain[j])) by {
            lemma_seg(&before.segs, h0, chain, j);
            assert(h0.same_cell(h1, chain[j]));
        }
        assert forall|i: int| 0 <= i < more.len() implies h1.is_live(#[trigger] more[i])
            && h1.kind(more[i]) == SEG_KIND && after.segs.has(more[i]) by {
            if i <= last {
                assert(more[i] == chain[i]);
                assert(before.segs.has(chain[i]));
            }
        }
        assert forall|i: int| 0 <= i < more.len() implies (#[trigger] after.segs.at(
            more[i],
        )).next@ == successor(more, i) && after.segs.at(more[i]).sized() by {
            if i < last {
                assert(more[i] == chain[i]);
                lemma_seg(&before.segs, h0, chain, i);
                assert(before.segs.same_at(&after.segs, chain[i]));
                assert(more[i + 1] == chain[i + 1]);
            } else if i == last {
                assert(more[i] == chain[i]);
            }
        }
        assert forall|i: int, j: int| 0 <= i < j < more.len() implies more[i] != more[j] by {
            assert(more[i] == chain[i]);
            assert(chain[i] != a);
            if j <= last {
                assert(more[j] == chain[j]);
                lemma_seg(&before.segs, h0, chain, i);
            }
        }
        lemma_seg(&before.segs, h0, chain, last);
        // the items
        lemma_slot_written(&before.segs, &after.segs, chain, first, p, q, p + 1);
        lemma_slots_extended(&after.segs, chain, a, first, q, p + 1);
        assert(slot(&after.segs, chain, first, p) == Some(t));
        assert(slot_ready(&after.segs, chain, first, p));
        assert forall|c: int| q <= c < p + 1 implies (#[trigger] slot(
            &after.segs,
            more,
            first,
            c,
        )) is Some && slot_ready(&after.segs, more, first, c) by {
            assert(slot(&after.segs, more, first, c) == slot(&after.segs, chain, first, c));
            if c < p {
                assert(slot(&before.segs, chain, first, c) is Some);
            }
        }
        assert(counted(&after.segs, more, q, p + 1)) by {
            assert(more[0] == chain[0]);
            assert forall|j: int| 1 <= j < more.len() implies (#[trigger] after.segs.at(
                more[j],
            )).low == 0 by {
                if j <= last {
                    assert(more[j] == chain[j]);
                    assert(before.segs.at(chain[j]).low == 0);
                }
            }
            assert forall|j: int| 0 <= j < more.len() - 1 implies (#[trigger] after.segs.at(
                more[j],
            )).high >= 32 by {
                assert(more[j] == chain[j]);
                if j < last {
                    assert(before.segs.at(chain[j]).high >= 32);
                }
            }
        }
        assert forall|i: int| 0 <= i < p - q implies after@[i] == before@[i] by {
            assert(slot(&after.segs, more, first, q + i) == slot(
                &after.segs,
                chain,
                first,
                q + i,
            ));
            assert(slot(&after.segs, chain, first, q + i) == slot(
                &before.segs,
                chain,
                first,
                q + i,
            ));
        }
        assert(after@.last() == t) by {
            assert(slot(&after.segs, more, first, p) == slot(&after.segs, chain, first, p));
        }
        assert(after@ =~= before@.push(t));
    }

    /// Adds `t` at the back of the queue, for the participant `me`.
    pub fn push(&mut self, t: T, state: &mut EpochState, me: usize)
        requires
            old(self).wf(&old(state).heap),
            old(state).wf(),
            old(state).enrolled(me),
            old(state).in_critical(me) < usize::MAX,
        ensures
            final(self).wf(&final(state).heap),
            final(state).wf(),
            final(self)@ == old(self)@.push(t),
            final(self)@ == fifo_after(old(self)@, Op::Push(t)),
            final(self).pushed() == old(self).pushed() + 1,
            final(self).popped() == old(self).popped(),
            final(self).nodes().len() == old(self).nodes().len() + (if final(self).pushed() % 32
                == 0 {
                1int
            } else {
                0int
            }),
            final(self).nodes().subrange(0, old(self).nodes().len() as int) == old(self).nodes(),
            final(state).enrolled(me),
            final(state).in_critical(me) == old(state).in_critical(me),
            final(state).era() - old(state).era() == (if old(state).record(me).try_gc
                && old(state).pin_advances(me) {
                1int
            } else {
                0int
            }),
            // besides a new segment, the operation changes no cell but as a
            // step does
            old(state).worked(final(state), (if final(self).pushed() % 32 == 0 {
                seq![final(self).nodes().last()]
            } else {
                Seq::empty()
            }), Seq::empty()),
            old(state).list_step(final(state), me),
            old(state).keeps_live_but(final(state), old(self).nodes()),
    {
        let guard = pin(state, me);
        let ghost pinned = *state;
        let ghost chain = self.chain@;
        let ghost p = self.pushed@;
        proof {
            old(self).lemma_wf_step(old(state), &pinned);
            old(state).lemma_step_keeps(&pinned, chain);
            pinned.lemma_record_inv(me);
            lemma_seg(&self.segs, &pinned.heap, chain, chain.len() - 1);
        }
        loop
            invariant_except_break
                *self == *old(self),
                *state == pinned,
            invariant
                old(self).wf(&pinned.heap),
                chain == old(self).chain@,
                p == old(self).pushed@,
                pinned.wf(),
                pinned.participants.listed(me),
                pinned.pinned(me),
                guard.owner() == me,
            ensures
                self.wf(&state.heap),
                state.wf(),
                self@ == old(self)@.push(t),
                self.pushed@ == p + 1,
                self.popped@ == old(self).popped@,
                self.chain@.len() == chain.len() + (if (p + 1) % 32 == 0 {
                    1int
                } else {
                    0int
                }),
                self.chain@.subrange(0, chain.len() as int) == chain,
                state.era() == pinned.era(),
                state.epoch == pinned.epoch,
                state.participants == pinned.participants,
                forall|b: usize|
                    pinned.heap.allocated(b) ==> #[trigger] pinned.heap.same_cell(&state.heap, b),
                (p + 1) % 32 != 0 ==> state.heap == pinned.heap,
                (p + 1) % 32 == 0 ==> !pinned.heap.allocated(self.chain@.last())
                    && state.heap.is_live(self.chain@.last()) && forall|b: usize|
                    b != self.chain@.last() ==> #[trigger] pinned.heap.same_cell(&state.heap, b),
            decreases 0int,
        {
            proof {
                lemma_seg(&self.segs, &pinned.heap, chain, chain.len() - 1);
            }
            let tail = self.tail.load(MemOrder::Acquire, &guard).unwrap();
            let a: usize = tail.as_raw();
            if self.segs.get(tail, &state.heap).high >= SEG_SIZE {
                // another push is about to link a new segment
                continue ;
            }
            let i: usize = self.fetch_add_high(a);
            let ghost claimed = self.segs;
            if i < SEG_SIZE {
                self.write_slot(a, i, t);
                let ghost written = self.segs;
                proof {
                    assert forall|b: usize| b != a implies old(self).segs.same_at(
                        &written,
                        b,
                    ) by {
                        assert(old(self).segs.same_at(&claimed, b));
                        assert(claimed.same_at(&written, b));
                    }
                }
                if i + 1 == SEG_SIZE {
                    let fresh = self.segs.publish(Owned::new(Segment::new()), &mut state.heap);
                    let ghost published = self.segs;
                    proof {
                        assert(a != fresh.addr());
                        assert(written.same_at(&published, a));
                    }
                    self.set_next(a, Some(fresh));
                    self.tail.store_shared(Some(fresh), MemOrder::Release);
                    proof {
                        self.chain = Ghost(chain.push(fresh.addr()));
                        self.pushed = Ghost(p + 1);
                        pinned.lemma_allocated(state, fresh.addr());
                        assert forall|b: usize| b != a && b != fresh.addr()
                            implies old(self).segs.same_at(&self.segs, b) by {
                            assert(old(self).segs.same_at(&written, b));
                            assert(written.same_at(&published, b));
                            assert(published.same_at(&self.segs, b));
                        }
                        assert(published.same_at(&self.segs, fresh.addr()));
                        Self::lemma_pushed_linked(
                            old(self),
                            self,
                            &pinned.heap,
                            &state.heap,
                            fresh.addr(),
                            t,
                        );
                        assert(self.chain@.subrange(0, chain.len() as int) =~= chain);
                    }
                } else {
                    proof {
                        self.pushed = Ghost(p + 1);
                        Self::lemma_pushed_in_place(old(self), self, &pinned.heap, t);
                        assert(self.chain@.subrange(0, chain.len() as int) =~= chain);
                    }
                }
                break ;
            }
        }
        guard.release(state);
        proof {
            assert forall|c: usize|
                old(state).heap.is_live(c) && old(state).heap.kind(c) != RECORD_KIND
                    && !chain.contains(c) implies (#[trigger] state.heap.is_live(c))
                && state.heap.kind(c) == old(state).heap.kind(c) by {
                assert(pinned.heap.is_live(c));
                assert(pinned.heap.same_cell(&state.heap, c));
            }
            assert(chain == old(self).nodes());
            assert(old(state).keeps_live_but(state, chain));
            let born = if (p + 1) % 32 == 0 {
                seq![self.chain@.last()]
            } else {
                Seq::empty()
            };
            if (p + 1) % 32 == 0 {
                assert(born[0] == self.chain@.last());
            }
            assert forall|a: usize| !born.contains(a) implies #[trigger] pinned.heap.same_cell(
                &state.heap,
                a,
            ) by {
                if (p + 1) % 32 == 0 && a == self.chain@.last() {
                    assert(born[0] == a);
                }
            }
            old(state).lemma_worked(&pinned, state, me, born, Seq::empty());
        }
    }

    /// In a queue in order, the first segment has an item to pop exactly
    /// when the queue is not empty, and then its slot is ready; a segment
    /// whose last slot is up for popping has a segment behind it.
    proof fn lemma_front(&self, heap: &Heap)
        requires
            self.wf(heap),
        ensures
            self.head@ == self.chain@[0],
            self.chain@[0] != 0,
            self.segs.kind() == SEG_KIND,
            self.segs.has(self.chain@[0]),
            self.segs.at(self.chain@[0]).sized(),
            heap.is_live(self.chain@[0]),
            heap.kind(self.chain@[0]) == SEG_KIND,
            self.segs.at(self.chain@[0]).low == self.popped@ % 32,
            self.segs.at(self.chain@[0]).low < vstd::math::min(
                self.segs.at(self.chain@[0]).high as int,
                32,
            ) <==> self.popped@ < self.pushed@,
            self.popped@ == self.pushed@ ==> self.segs.at(self.chain@[0]).next@ == 0,
            self.popped@ < self.pushed@ ==> self.segs.at(self.chain@[0]).ready@[self.popped@ % 32]
                && self.segs.at(self.chain@[0]).data@[self.popped@ % 32] == Some(self@[0]),
            self.popped@ < self.pushed@ && self.popped@ % 32 == 31 ==> self.chain@.len() >= 2
                && self.segs.at(self.chain@[0]).next@ == self.chain@[1],
    {
        let chain = self.chain@;
        lemma_seg(&self.segs, heap, chain, 0);
        if chain.len() > 1 {
            assert(self.segs.at(chain[0]).high >= 32);
            lemma_seg(&self.segs, heap, chain, 1);
        }
        if self.popped@ < self.pushed@ {
            assert(slot(&self.segs, chain, self.first(), self.popped@) is Some);
        }
    }

    /// What holds once the slot of the oldest item was claimed and
    /// emptied, when that slot is not the last of its segment: the queue
    /// is in order with one item less.
    proof fn lemma_popped_in_place(before: &Self, after: &Self, heap: &Heap)
        requires
            before.wf(heap),
            before.same_ends(&Self { popped: before.popped, ..*after }),
            after.popped@ == before.popped@ + 1,
            before.popped@ < before.pushed@,
            before.popped@ % 32 + 1 < 32,
            after.segs.has(before.chain@[0]),
            after.segs.at(before.chain@[0]).sized(),
            after.segs.at(before.chain@[0]).data@ == before.segs.at(before.chain@[0]).data@.update(
                before.popped@ % 32,
                None,
            ),
            after.segs.at(before.chain@[0]).ready == before.segs.at(before.chain@[0]).ready,
            after.segs.at(before.chain@[0]).low == before.popped@ % 32 + 1,
            after.segs.at(before.chain@[0]).high == before.segs.at(before.chain@[0]).high,
            after.segs.at(before.chain@[0]).next == before.segs.at(before.chain@[0]).next,
            forall|b: usize| b != before.chain@[0] ==> before.segs.same_at(&after.segs, b),
        ensures
            after.wf(heap),
            after@ == before@.subrange(1, before@.len() as int),
    {
        let chain = before.chain@;
        let first = before.first();
        let p = before.pushed@;
        let q = before.popped@;
        assert forall|j: int| 0 <= j < chain.len() implies before.segs.has(#[trigger] chain[j])
            && (j != 0 ==> before.segs.same_at(&after.segs, chain[j])) by {
            lemma_seg(&before.segs, heap, chain, j);
        }
        assert forall|i: int| 0 <= i < chain.len() implies after.segs.has(#[trigger] chain[i])
            && after.segs.at(chain[i]).next == before.segs.at(chain[i]).next && after.segs.at(
            chain[i],
        ).sized() by {
            lemma_seg(&before.segs, heap, chain, i);
        }
        assert forall|i: int| 0 <= i < chain.len() implies heap.is_live(#[trigger] chain[i])
            && heap.kind(chain[i]) == SEG_KIND by {
            lemma_seg(&before.segs, heap, chain, i);
        }
        lemma_chained_framed(&before.segs, &after.segs, heap, heap, chain);
        lemma_seg(&before.segs, heap, chain, 0);
        lemma_slot_written(&before.segs, &after.segs, chain, first, q, q, p);
        assert forall|c: int| q + 1 <= c < p implies (#[trigger] slot(
            &after.segs,
            chain,
            first,
            c,
        )) is Some && slot_ready(&after.segs, chain, first, c) by {
            assert(slot(&before.segs, chain, first, c) is Some);
        }
        assert(counted(&after.segs, chain, q + 1, p)) by {
            assert forall|j: int| 1 <= j < chain.len() implies (#[trigger] after.segs.at(
                chain[j],
            )).low == 0 by {
                assert(before.segs.at(chain[j]).low == 0);
            }
            assert forall|j: int| 0 <= j < chain.len() - 1 implies (#[trigger] after.segs.at(
                chain[j],
            )).high >= 32 by {
                assert(before.segs.at(chain[j]).high >= 32);
            }
            if chain.len() > 1 {
                assert(before.segs.at(chain[chain.len() - 1]).high == p % 32);
            }
        }
        assert forall|i: int| 0 <= i < p - q - 1 implies after@[i] == before@[i + 1] by {
            assert(slot(&after.segs, chain, first, q + 1 + i) == slot(
                &before.segs,
                chain,
                first,
                q + 1 + i,
            ));
        }
        assert(after@ =~= before@.subrange(1, before@.len() as int));
    }

    /// What holds once the last slot of the first segment was claimed and
    /// emptied, the head moved to the next segment and the first one was
    /// retired: the queue is in order with one item and one segment less.
    proof fn lemma_popped_advanced(before: &Self, after: &Self, h0: &Heap, h1: &Heap)
        requires
            before.wf(h0),
            before.popped@ < before.pushed@,
            before.popped@ % 32 + 1 == 32,
            before.chain@.len() >= 2,
            after.head@ == before.chain@[1],
            after.tail == before.tail,
            after.chain@ == before.chain@.subrange(1, before.chain@.len() as int),
            after.pushed == before.pushed,
            after.popped@ == before.popped@ + 1,
            after.segs.kind() == before.segs.kind(),
            forall|b: usize| b != before.chain@[0] ==> before.segs.same_at(&after.segs, b),
            forall|b: usize| b != before.chain@[0] ==> h0.same_cell(h1, b),
        ensures
            after.wf(h1),
            after@ == before@.subrange(1, before@.len() as int),
    {
        let chain = before.chain@;
        let rest = after.chain@;
        let first = before.first();
        let p = before.pushed@;
        let q = before.popped@;
        assert((q + 1) / 32 == first + 1);
        assert forall|i: int| 0 <= i < rest.len() implies (#[trigger] rest[i]) == chain[i + 1]
            && rest[i] != chain[0] && before.segs.same_at(&after.segs, rest[i])
            && before.segs.has(rest[i]) && h0.same_cell(h1, rest[i]) by {
            lemma_seg(&before.segs, h0, chain, i + 1);
        }
        assert forall|i: int| 0 <= i < rest.len() implies h1.is_live(#[trigger] rest[i])
            && h1.kind(rest[i]) == SEG_KIND && after.segs.has(rest[i]) by {
            lemma_seg(&before.segs, h0, chain, i + 1);
            assert(rest[i] == chain[i + 1]);
        }
        assert forall|i: int| 0 <= i < rest.len() implies (#[trigger] after.segs.at(
            rest[i],
        )).next@ == successor(rest, i) && after.segs.at(rest[i]).sized() by {
            lemma_seg(&before.segs, h0, chain, i + 1);
            assert(rest[i] == chain[i + 1]);
            if i + 1 < rest.len() {
                assert(rest[i + 1] == chain[i + 2]);
            }
        }
        assert forall|i: int, j: int| 0 <= i < j < rest.len() implies rest[i] != rest[j] by {
            assert(rest[i] == chain[i + 1]);
            assert(rest[j] == chain[j + 1]);
            assert(chain[i + 1] != chain[j + 1]);
        }
        lemma_slots_cut(&before.segs, chain, first, q + 1, p);
        lemma_filled_framed(&before.segs, &after.segs, rest, first + 1, q + 1, p);
        assert forall|c: int| q + 1 <= c < p implies (#[trigger] slot(
            &after.segs,
            rest,
            first + 1,
            c,
        )) is Some && slot_ready(&after.segs, rest, first + 1, c) by {
            assert(slot(&before.segs, chain, first, c) is Some);
            assert(slot(&before.segs, rest, first + 1, c) == slot(&before.segs, chain, first, c));
        }
        assert(counted(&after.segs, rest, q + 1, p)) by {
            assert(rest[0] == chain[1]);
            assert(before.segs.at(chain[1]).low == 0);
            assert(rest[rest.len() - 1] == chain[chain.len() - 1]);
            assert forall|j: int| 1 <= j < rest.len() implies (#[trigger] after.segs.at(
                rest[j],
            )).low == 0 by {
                assert(rest[j] == chain[j + 1]);
                assert(before.segs.at(chain[j + 1]).low == 0);
            }
            assert forall|j: int| 0 <= j < rest.len() - 1 implies (#[trigger] after.segs.at(
                rest[j],
            )).high >= 32 by {
                assert(rest[j] == chain[j + 1]);
                assert(before.segs.at(chain[j + 1]).high >= 32);
            }
        }
        assert forall|i: int| 0 <= i < p - q - 1 implies after@[i] == before@[i + 1] by {
            let c = q + 1 + i;
            assert(slot(&after.segs, rest, first + 1, c) == slot(
                &before.segs,
                rest,
                first + 1,
                c,
            ));
            assert(slot(&before.segs, rest, first + 1, c) == slot(&before.segs, chain, first, c));
        }
        assert(after@ =~= before@.subrange(1, before@.len() as int));
    }

    /// Takes the oldest item out of the queue, for the participant `me`.
    /// Returns `None` if the queue is empty. Taking the item out of the
    /// last slot of the first segment makes the next segment the first,
    /// and hands the old one to `me` as garbage.
    pub fn try_pop(&mut self, state: &mut EpochState, me: usize) -> (r: Option<T>)
        requires
            old(self).wf(&old(state).heap),
            old(state).wf(),
            old(state).enrolled(me),
            old(state).in_critical(me) < usize::MAX,
        ensures
            final(self).wf(&final(state).heap),
            final(state).wf(),
            r == taken(old(self)@, Op::Pop),
            final(self)@ == fifo_after(old(self)@, Op::Pop),
            r is None <==> old(self)@.len() == 0,
            r is None ==> final(self)@ == old(self)@ && final(self).nodes() == old(self).nodes()
                && final(self).popped() == old(self).popped(),
            r matches Some(v) ==> v == old(self)@[0] && final(self)@ == old(self)@.subrange(
                1,
                old(self)@.len() as int,
            ) && final(self).popped() == old(self).popped() + 1,
            r is Some && final(self).popped() % 32 != 0 ==> final(self).nodes()
                == old(self).nodes(),
            r is Some && final(self).popped() % 32 == 0 ==> final(self).nodes()
                == old(self).nodes().subrange(1, old(self).nodes().len() as int)
                && final(state).heap.is_retired(
                old(self).nodes()[0],
            ) && final(state).heap.stamp(old(self).nodes()[0]) == final(state).era(),
            final(self).pushed() == old(self).pushed(),
            final(state).enrolled(me),
            final(state).in_critical(me) == old(state).in_critical(me),
            final(state).era() - old(state).era() == (if old(state).record(me).try_gc
                && old(state).pin_advances(me) {
                1int
            } else {
                0int
            }),
            // besides the segment that is unlinked, the operation changes
            // no cell but as a step does
            old(state).worked(final(state), Seq::empty(), (if r is Some && final(self).popped() % 32
                == 0 {
                seq![old(self).nodes()[0]]
            } else {
                Seq::empty()
            })),
            old(state).list_step(final(state), me),
            // the segment taken off is in the caller's hands: it is the
            // last of the caller's newest bag
            r is Some && final(self).popped() % 32 == 0 ==> final(state).heap.holder(
                old(self).nodes()[0],
            ) == Holder::Local(me) && final(state).record(me).garbage.new@.len() > 0
                && final(state).record(me).garbage.new@.last() == old(self).nodes()[0]
                && final(state).record(me).garbage.holds(old(self).nodes()[0]),
            old(state).keeps_live_but(final(state), old(self).nodes()),
    {
        let guard = pin(state, me);
        let ghost pinned = *state;
        let ghost chain = self.chain@;
        let ghost q = self.popped@;
        proof {
            old(self).lemma_wf_step(old(state), &pinned);
            old(state).lemma_step_keeps(&pinned, chain);
            pinned.lemma_record_inv(me);
        }
        let mut popped: Option<T> = None;
        loop
            invariant_except_break
                *self == *old(self),
                *state == pinned,
                popped is None,
            invariant
                old(self).wf(&pinned.heap),
                chain == old(self).chain@,
                q == old(self).popped@,
                pinned.wf(),
                pinned.participants.listed(me),
                pinned.pinned(me),
                guard.owner() == me,
            ensures
                self.wf(&state.heap),
                state.wf(),
                state.participants.order() == pinned.participants.order(),
                pinned.others_same(state, me),
                forall|b: usize|
                    pinned.heap.allocated(b) ==> #[trigger] state.heap.kind(b)
                        == pinned.heap.kind(b),
                state.participants.listed(me),
                state.in_critical(me) == pinned.in_critical(me),
                state.record(me).active == pinned.record(me).active,
                state.era() == pinned.era(),
                state.epoch == pinned.epoch,
                self.pushed@ == old(self).pushed@,
                popped is None <==> old(self)@.len() == 0,
                popped is None ==> *self == *old(self) && *state == pinned,
                popped matches Some(v) ==> v == old(self)@[0] && self@ == old(self)@.subrange(
                    1,
                    old(self)@.len() as int,
                ) && self.popped@ == q + 1,
                popped is Some && (q + 1) % 32 != 0 ==> self.chain@ == chain && state.heap
                    == pinned.heap,
                popped is Some && (q + 1) % 32 == 0 ==> self.chain@ == chain.subrange(
                    1,
                    chain.len() as int,
                ) && state.heap.is_retired(chain[0]) && state.heap.stamp(chain[0]) == state.era()
                    && state.heap.holder(chain[0]) == Holder::Local(me) && state.record(
                    me,
                ).garbage.new@ == pinned.record(me).garbage.new@.push(chain[0])
                    && forall|b: usize| b != chain[0] ==> pinned.heap.same_cell(&state.heap, b),
            decreases 0int,
        {
            proof {
                self.lemma_front(&pinned.heap);
            }
            let head = self.head.load(MemOrder::Acquire, &guard).unwrap();
            let a: usize = head.as_raw();
            let mut empty: bool = false;
            loop
                invariant_except_break
                    *self == *old(self),
                    *state == pinned,
                    popped is None,
                    !empty,
                invariant
                    old(self).wf(&pinned.heap),
                    chain == old(self).chain@,
                    q == old(self).popped@,
                    a == chain[0],
                    head.addr() == a,
                    pinned.wf(),
                    pinned.participants.listed(me),
                    pinned.pinned(me),
                    guard.owner() == me,
                ensures
                    empty <==> popped is None,
                    empty ==> *self == *old(self) && *state == pinned && old(self)@.len() == 0,
                    self.pushed@ == old(self).pushed@,
                    state.wf(),
                    state.participants.order() == pinned.participants.order(),
                    pinned.others_same(state, me),
                    forall|b: usize|
                        pinned.heap.allocated(b) ==> #[trigger] state.heap.kind(b)
                            == pinned.heap.kind(b),
                    state.participants.listed(me),
                    state.pinned(me),
                    state.in_critical(me) == pinned.in_critical(me),
                    state.record(me).active == pinned.record(me).active,
                    state.era() == pinned.era(),
                    state.epoch == pinned.epoch,
                    popped is Some ==> self.wf(&state.heap),
                    popped matches Some(v) ==> v == old(self)@[0] && self@
                        == old(self)@.subrange(1, old(self)@.len() as int) && self.popped@ == q + 1,
                    popped is Some && (q + 1) % 32 != 0 ==> self.chain@ == chain && state.heap
                        == pinned.heap,
                    popped is Some && (q + 1) % 32 == 0 ==> self.chain@ == chain.subrange(
                        1,
                        chain.len() as int,
                    ) && state.heap.is_retired(chain[0]) && state.heap.stamp(chain[0])
                        == state.era() && state.heap.holder(chain[0]) == Holder::Local(me)
                        && state.record(me).garbage.new@ == pinned.record(me).garbage.new@.push(
                        chain[0],
                    ) && forall|b: usize|
                        b != chain[0] ==> pinned.heap.same_cell(&state.heap, b),
                decreases 0int,
            {
                proof {
                    self.lemma_front(&pinned.heap);
                }
                let low: usize = self.segs.get(head, &state.heap).low;
                let high: usize = self.segs.get(head, &state.heap).high;
                let bound: usize = if high < SEG_SIZE {
                    high
                } else {
                    SEG_SIZE
                };
                if low >= bound {
                    empty = true;
                    break ;
                }
                if self.cas_low(a, low, low + 1) == low {
                    let ghost claimed = self.segs;
                    // wait for the push that claimed the slot to fill it
                    loop
                        invariant
                            self.segs == claimed,
                            claimed.has(a),
                            claimed.at(a).sized(),
                            low < SEG_SIZE,
                            claimed.at(a).ready@[low as int],
                            head.addr() == a,
                            pinned.heap.allocated(a),
                            pinned.heap.kind(a) == SEG_KIND,
                            claimed.kind() == SEG_KIND,
                            *state == pinned,
                        decreases 0int,
                    {
                        if self.segs.get(head, &state.heap).ready[low] {
                            break ;
                        }
                    }
                    if low + 1 == SEG_SIZE {
                        // the one who empties a segment moves the head on
                        loop
                            invariant_except_break
                                *state == pinned,
                                self.head == old(self).head,
                            invariant
                                self.segs == claimed,
                                self.tail == old(self).tail,
                                self.chain == old(self).chain,
                                self.pushed == old(self).pushed,
                                self.popped == old(self).popped,
                                claimed.has(a),
                                claimed.kind() == SEG_KIND,
                                claimed.at(a).next@ == chain[1],
                                chain.len() >= 2,
                                chain == old(self).chain@,
                                old(self).wf(&pinned.heap),
                                head.addr() == a,
                                a == chain[0],
                                pinned.heap.is_live(a),
                                pinned.heap.kind(a) == SEG_KIND,
                                pinned.wf(),
                                pinned.participants.listed(me),
                                pinned.pinned(me),
                                guard.owner() == me,
                            ensures
                                self.head@ == chain[1],
                                state.wf(),
                                state.participants.order() == pinned.participants.order(),
                                pinned.others_same(state, me),
                                forall|b: usize|
                                    pinned.heap.allocated(b) ==> #[trigger] state.heap.kind(b)
                                        == pinned.heap.kind(b),
                                state.participants.listed(me),
                                state.pinned(me),
                                state.in_critical(me) == pinned.in_critical(me),
                                state.record(me).active == pinned.record(me).active,
                                state.era() == pinned.era(),
                                state.epoch == pinned.epoch,
                                state.heap.is_retired(a),
                                state.heap.kind(a) == SEG_KIND,
                                state.heap.stamp(a) == state.era(),
                                state.heap.holder(a) == Holder::Local(me),
                                state.record(me).garbage.new@ == pinned.record(
                                    me,
                                ).garbage.new@.push(a),
                                forall|b: usize| b != a ==> pinned.heap.same_cell(&state.heap, b),
                            decreases 0int,
                        {
                            proof {
                                lemma_seg(&old(self).segs, &pinned.heap, chain, 1);
                            }
                            match self.segs.get(head, &state.heap).next.load(
                                MemOrder::Acquire,
                                &guard,
                            ) {
                                Some(next) => {
                                    self.head.store_shared(Some(next), MemOrder::Release);
                                    guard.unlinked(state, head);
                                    proof {
                                        assert forall|b: usize|
                                            pinned.heap.allocated(
                                                b,
                                            ) implies #[trigger] state.heap.kind(b)
                                            == pinned.heap.kind(b) by {
                                            if b != a {
                                                assert(pinned.heap.same_cell(&state.heap, b));
                                            }
                                        }
                                    }
                                    break ;
                                },
                                None => {},
                            }
                        }
                    }
                    popped = self.take_slot(a, low);
                    proof {
                        self.popped = Ghost(q + 1);
                        assert forall|b: usize| b != a implies old(self).segs.same_at(
                            &self.segs,
                            b,
                        ) by {
                            assert(old(self).segs.same_at(&claimed, b));
                            assert(claimed.same_at(&self.segs, b));
                        }
                        if low + 1 == SEG_SIZE {
                            self.chain = Ghost(chain.subrange(1, chain.len() as int));
                            Self::lemma_popped_advanced(
                                old(self),
                                self,
                                &pinned.heap,
                                &state.heap,
                            );
                        } else {
                            Self::lemma_popped_in_place(old(self), self, &pinned.heap);
                        }
                    }
                    break ;
                }
            }
            if popped.is_some() {
                break ;
            }
            if self.segs.get(head, &state.heap).next.load(MemOrder::Relaxed, &guard).is_none() {
                break ;
            }
        }
        let ghost worked = *state;
        guard.release(state);
        proof {
            if popped is Some && (q + 1) % 32 == 0 {
                let bag = worked.record(me).garbage.new@;
                assert(bag == pinned.record(me).garbage.new@.push(chain[0]));
                assert(bag[bag.len() - 1] == chain[0]);
                assert(state.record(me).garbage.new@ == bag);
                assert(state.record(me).garbage.new@.last() == chain[0]);
                assert(state.record(me).garbage.new@.contains(chain[0]));
                assert(state.record(me).garbage.holds(chain[0]));
                assert(state.heap.holder(chain[0]) == Holder::Local(me));
                assert(chain[0] == old(self).nodes()[0]);
            }
        }
        proof {
            assert forall|c: usize|
                old(state).heap.is_live(c) && old(state).heap.kind(c) != RECORD_KIND
                    && !chain.contains(c) implies (#[trigger] state.heap.is_live(c))
                && state.heap.kind(c) == old(state).heap.kind(c) by {
                assert(pinned.heap.is_live(c));
                if popped is Some && (q + 1) % 32 == 0 {
                    if c == chain[0] {
                        assert(chain.contains(chain[0]));
                    }
                    assert(pinned.heap.same_cell(&state.heap, c));
                }
            }
            assert(chain == old(self).nodes());
            assert(old(state).keeps_live_but(state, chain));
            let gone = if popped is Some && (q + 1) % 32 == 0 {
                seq![chain[0]]
            } else {
                Seq::empty()
            };
            if popped is Some && (q + 1) % 32 == 0 {
                assert(gone[0] == chain[0]);
                lemma_seg(&old(self).segs, &old(state).heap, chain, 0);
                assert(old(state).heap.same_state(&pinned.heap, chain[0]));
                assert(pinned.heap.allocated(chain[0]));
            }
            assert forall|a: usize| !gone.contains(a) implies #[trigger] pinned.heap.same_cell(
                &state.heap,
                a,
            ) by {
                if popped is Some && (q + 1) % 32 == 0 && a == chain[0] {
                    assert(gone[0] == a);
                }
            }
            old(state).lemma_worked(&pinned, state, me, Seq::empty(), gone);
        }
        popped
    }

    /// Adds `n` to the count of the slots of the segment at `a` that pushes
    /// have claimed; returns the count before.
    fn fetch_add_high_by(&mut self, a: usize, n: usize) -> (prev: usize)
        requires
            old(self).segs.has(a),
        ensures
            prev == old(self).segs.at(a).high,
            final(self).segs.has(a),
            prev + n <= usize::MAX ==> final(self).segs.at(a).high == prev + n,
            final(self).segs.at(a).low == old(self).segs.at(a).low,
            final(self).segs.at(a).data == old(self).segs.at(a).data,
            final(self).segs.at(a).ready == old(self).segs.at(a).ready,
            final(self).segs.at(a).next == old(self).segs.at(a).next,
            forall|b: usize| b != a ==> old(self).segs.same_at(&final(self).segs, b),
            old(self).same_ends(final(self)),
    {
        let mut seg = self.segs.take(a);
        let ghost taken = self.segs;
        let prev: usize = seg.high;
        seg.high = prev.wrapping_add(n);
        self.segs.put(a, seg);
        proof {
            assert forall|b: usize| b != a implies old(self).segs.same_at(&self.segs, b) by {
                assert(old(self).segs.same_at(&taken, b));
                assert(taken.same_at(&self.segs, b));
            }
        }
        prev
    }

    /// What holds once `n` slots of the last segment were claimed, when
    /// the segment has room left after them: the segments are as for
    /// `pushed + n` slots claimed, and the items are where they were.
    proof fn lemma_claimed_in_place(before: &Self, after: &Self, heap: &Heap, n: int)
        requires
            before.wf(heap),
            before.same_ends(after),
            0 < n,
            before.pushed@ % 32 + n < 32,
            after.segs.has(before.chain@.last()),
            after.segs.at(before.chain@.last()).data == before.segs.at(before.chain@.last()).data,
            after.segs.at(before.chain@.last()).ready == before.segs.at(
                before.chain@.last(),
            ).ready,
            after.segs.at(before.chain@.last()).low == before.segs.at(before.chain@.last()).low,
            after.segs.at(before.chain@.last()).high == before.pushed@ % 32 + n,
            after.segs.at(before.chain@.last()).next == before.segs.at(before.chain@.last()).next,
            forall|b: usize|
                b != before.chain@.last() ==> before.segs.same_at(&after.segs, b),
        ensures
            after.shaped(heap, before.pushed@ + n),
            filled(&after.segs, after.chain@, after.first(), after.popped@, before.pushed@),
            after@ == before@,
    {
        let chain = before.chain@;
        let first = before.first();
        let p = before.pushed@;
        let q = before.popped@;
        let last = chain.len() - 1;
        assert(p / 32 - first == last);
        assert((p + n) / 32 == p / 32);
        assert forall|j: int| 0 <= j < chain.len() implies before.segs.has(#[trigger] chain[j])
            && (j != last ==> before.segs.same_at(&after.segs, chain[j])) by {
            lemma_seg(&before.segs, heap, chain, j);
        }
        assert forall|i: int| 0 <= i < chain.len() implies after.segs.has(#[trigger] chain[i])
            && after.segs.at(chain[i]).next == before.segs.at(chain[i]).next && after.segs.at(
            chain[i],
        ).sized() by {
            lemma_seg(&before.segs, heap, chain, i);
        }
        assert forall|i: int| 0 <= i < chain.len() implies heap.is_live(#[trigger] chain[i])
            && heap.kind(chain[i]) == SEG_KIND by {
            lemma_seg(&before.segs, heap, chain, i);
        }
        lemma_chained_framed(&before.segs, &after.segs, heap, heap, chain);
        assert forall|j: int| 0 <= j < chain.len() implies (#[trigger] after.segs.at(
            chain[j],
        )).data == before.segs.at(chain[j]).data && after.segs.at(chain[j]).ready
            == before.segs.at(chain[j]).ready by {}
        lemma_filled_framed(&before.segs, &after.segs, chain, first, q, p);
        assert forall|c: int| q <= c < p implies (#[trigger] slot(
            &after.segs,
            chain,
            first,
            c,
        )) is Some && slot_ready(&after.segs, chain, first, c) by {
            assert(slot(&before.segs, chain, first, c) is Some);
        }
        assert(counted(&after.segs, chain, q, p + n)) by {
            assert forall|j: int| 1 <= j < chain.len() implies (#[trigger] after.segs.at(
                chain[j],
            )).low == 0 by {
                assert(before.segs.at(chain[j]).low == 0);
            }
            assert forall|j: int| 0 <= j < chain.len() - 1 implies (#[trigger] after.segs.at(
                chain[j],
            )).high >= 32 by {
                assert(before.segs.at(chain[j]).high >= 32);
            }
        }
        assert forall|i: int| 0 <= i < p - q implies after@[i] == before@[i] by {
            assert(slot(&after.segs, chain, first, q + i) == slot(
                &before.segs,
                chain,
                first,
                q + i,
            ));
        }
        assert(after@ =~= before@);
    }

    /// What holds once the rest of the last segment was claimed, and maybe
    /// more, and a fresh segment was linked behind it: the segments are as
    /// for all slots up to the end of the old last segment claimed, and
    /// the items are where they were.
    proof fn lemma_claimed_linked(
        before: &Self,
        after: &Self,
        h0: &Heap,
        h1: &Heap,
        a: usize,
        n: int,
    )
        requires
            before.wf(h0),
            after.head == before.head,
            after.tail@ == a,
            after.chain@ == before.chain@.push(a),
            after.popped == before.popped,
            after.pushed == before.pushed,
            after.segs.kind() == before.segs.kind(),
            before.pushed@ % 32 + n >= 32,
            !h0.allocated(a),
            h1.is_live(a),
            h1.kind(a) == SEG_KIND,
            forall|b: usize| b != a ==> h0.same_cell(h1, b),
            after.segs.has(a),
            after.segs.at(a).untouched(),
            after.segs.has(before.chain@.last()),
            after.segs.at(before.chain@.last()).sized(),
            after.segs.at(before.chain@.last()).data == before.segs.at(before.chain@.last()).data,
            after.segs.at(before.chain@.last()).ready == before.segs.at(
                before.chain@.last(),
            ).ready,
            after.segs.at(before.chain@.last()).low == before.segs.at(before.chain@.last()).low,
            after.segs.at(before.chain@.last()).high == before.pushed@ % 32 + n,
            after.segs.at(before.chain@.last()).next@ == a,
            forall|b: usize|
                b != before.chain@.last() && b != a ==> before.segs.same_at(&after.segs, b),
        ensures
            after.shaped(h1, 32 * (before.pushed@ / 32 + 1)),
            filled(&after.segs, after.chain@, after.first(), after.popped@, before.pushed@),
            after@ == before@,
    {
        let chain = before.chain@;
        let more = after.chain@;
        let first = before.first();
        let p = before.pushed@;
        let q = before.popped@;
        let last = chain.len() - 1;
        let full = 32 * (p / 32 + 1);
        assert(p / 32 - first == last);
        assert(full / 32 - first == last + 1);
        assert(full % 32 == 0);
        assert forall|j: int| 0 <= j < chain.len() implies before.segs.has(#[trigger] chain[j])
            && chain[j] != a && h1.is_live(chain[j]) && h1.kind(chain[j]) == SEG_KIND && (j != last
            ==> before.segs.same_at(&after.segs, chain[j])) by {
            lemma_seg(&before.segs, h0, chain, j);
            assert(h0.same_cell(h1, chain[j]));
        }
        assert forall|i: int| 0 <= i < more.len() implies h1.is_live(#[trigger] more[i])
            && h1.kind(more[i]) == SEG_KIND && after.segs.has(more[i]) by {
            if i <= last {
                assert(more[i] == chain[i]);
                assert(before.segs.has(chain[i]));
            }
        }
        assert forall|i: int| 0 <= i < more.len() implies (#[trigger] after.segs.at(
            more[i],
        )).next@ == successor(more, i) && after.segs.at(more[i]).sized() by {
            if i < last {
                assert(more[i] == chain[i]);
                lemma_seg(&before.segs, h0, chain, i);
                assert(before.segs.same_at(&after.segs, chain[i]));
                assert(more[i + 1] == chain[i + 1]);
            } else if i == last {
                assert(more[i] == chain[i]);
            }
        }
        assert forall|i: int, j: int| 0 <= i < j < more.len() implies more[i] != more[j] by {
            assert(more[i] == chain[i]);
            assert(chain[i] != a);
            if j <= last {
                assert(more[j] == chain[j]);
                lemma_seg(&before.segs, h0, chain, i);
            }
        }
        lemma_seg(&before.segs, h0, chain, last);
        assert forall|j: int| 0 <= j < chain.len() implies (#[trigger] after.segs.at(
            chain[j],
        )).data == before.segs.at(chain[j]).data && after.segs.at(chain[j]).ready
            == before.segs.at(chain[j]).ready by {
            assert(before.segs.has(chain[j]));
        }
        lemma_filled_framed(&before.segs, &after.segs, chain, first, q, p);
        lemma_slots_extended(&after.segs, chain, a, first, q, p);
        assert forall|c: int| q <= c < p implies (#[trigger] slot(
            &after.segs,
            more,
            first,
            c,
        )) is Some && slot_ready(&after.segs, more, first, c) by {
            assert(slot(&after.segs, more, first, c) == slot(&after.segs, chain, first, c));
            assert(slot(&before.segs, chain, first, c) is Some);
        }
        assert(counted(&after.segs, more, q, full)) by {
            assert(more[0] == chain[0]);
            assert forall|j: int| 1 <= j < more.len() implies (#[trigger] after.segs.at(
                more[j],
            )).low == 0 by {
                if j <= last {
                    assert(more[j] == chain[j]);
                    assert(before.segs.at(chain[j]).low == 0);
                }
            }
            assert forall|j: int| 0 <= j < more.len() - 1 implies (#[trigger] after.segs.at(
                more[j],
            )).high >= 32 by {
                assert(more[j] == chain[j]);
                if j < last {
                    assert(before.segs.at(chain[j]).high >= 32);
                }
            }
        }
        assert forall|i: int| 0 <= i < p - q implies after@[i] == before@[i] by {
            assert(slot(&after.segs, more, first, q + i) == slot(
                &after.segs,
                chain,
                first,
                q + i,
            ));
            assert(slot(&after.segs, chain, first, q + i) == slot(
                &before.segs,
                chain,
                first,
                q + i,
            ));
        }
        assert(after@ =~= before@);
    }

    /// What holds once the slot of the next item, which was claimed
    /// before, is written: the segments are as they were, and the queue
    /// has one more item.
    proof fn lemma_filled_one(before: &Self, after: &Self, heap: &Heap, claimed: int, t: T)
        requires
            before.shaped(heap, claimed),
            filled(&before.segs, before.chain@, before.first(), before.popped@, before.pushed@),
            before.popped@ <= before.pushed@ < claimed,
            before.same_ends(&Self { pushed: before.pushed, ..*after }),
            after.pushed@ == before.pushed@ + 1,
            after.segs.has(before.chain@[before.pushed@ / 32 - before.first()]),
            after.segs.at(before.chain@[before.pushed@ / 32 - before.first()]).sized(),
            after.segs.at(before.chain@[before.pushed@ / 32 - before.first()]).data@
                == before.segs.at(
                before.chain@[before.pushed@ / 32 - before.first()],
            ).data@.update(before.pushed@ % 32, Some(t)),
            after.segs.at(before.chain@[before.pushed@ / 32 - before.first()]).ready@
                == before.segs.at(
                before.chain@[before.pushed@ / 32 - before.first()],
            ).ready@.update(before.pushed@ % 32, true),
            after.segs.at(before.chain@[before.pushed@ / 32 - before.first()]).low
                == before.segs.at(before.chain@[before.pushed@ / 32 - before.first()]).low,
            after.segs.at(before.chain@[before.pushed@ / 32 - before.first()]).high
                == before.segs.at(before.chain@[before.pushed@ / 32 - before.first()]).high,
            after.segs.at(before.chain@[before.pushed@ / 32 - before.first()]).next
                == before.segs.at(before.chain@[before.pushed@ / 32 - before.first()]).next,
            forall|b: usize|
                b != before.chain@[before.pushed@ / 32 - before.first()] ==> before.segs.same_at(
                    &after.segs,
                    b,
                ),
        ensures
            after.shaped(heap, claimed),
            filled(&after.segs, after.chain@, after.first(), after.popped@, after.pushed@),
            after@ == before@.push(t),
    {
        let chain = before.chain@;
        let first = before.first();
        let p = before.pushed@;
        let q = before.popped@;
        let jp = p / 32 - first;
        assert(0 <= jp < chain.len());
        assert forall|j: int| 0 <= j < chain.len() implies before.segs.has(#[trigger] chain[j])
            && (j != jp ==> before.segs.same_at(&after.segs, chain[j])) by {
            lemma_seg(&before.segs, heap, chain, j);
            lemma_seg(&before.segs, heap, chain, jp);
        }
        assert forall|i: int| 0 <= i < chain.len() implies after.segs.has(#[trigger] chain[i])
            && after.segs.at(chain[i]).next == before.segs.at(chain[i]).next && after.segs.at(
            chain[i],
        ).sized() by {
            lemma_seg(&before.segs, heap, chain, i);
        }
        assert forall|i: int| 0 <= i < chain.len() implies heap.is_live(#[trigger] chain[i])
            && heap.kind(chain[i]) == SEG_KIND by {
            lemma_seg(&before.segs, heap, chain, i);
        }
        lemma_chained_framed(&before.segs, &after.segs, heap, heap, chain);
        lemma_seg(&before.segs, heap, chain, jp);
        lemma_slot_written(&before.segs, &after.segs, chain, first, p, q, p + 1);
        assert(slot(&after.segs, chain, first, p) == Some(t));
        assert(slot_ready(&after.segs, chain, first, p));
        assert forall|c: int| q <= c < p + 1 implies (#[trigger] slot(
            &after.segs,
            chain,
            first,
            c,
        )) is Some && slot_ready(&after.segs, chain, first, c) by {
            if c < p {
                assert(slot(&before.segs, chain, first, c) is Some);
            }
        }
        assert(counted(&after.segs, chain, q, claimed)) by {
            assert forall|j: int| 1 <= j < chain.len() implies (#[trigger] after.segs.at(
                chain[j],
            )).low == 0 by {
                assert(before.segs.at(chain[j]).low == 0);
            }
            assert forall|j: int| 0 <= j < chain.len() - 1 implies (#[trigger] after.segs.at(
                chain[j],
            )).high >= 32 by {
                assert(before.segs.at(chain[j]).high >= 32);
            }
        }
        assert forall|i: int| 0 <= i < p - q implies after@[i] == before@[i] by {
            assert(slot(&after.segs, chain, first, q + i) == slot(
                &before.segs,
                chain,
                first,
                q + i,
            ));
        }
        assert(after@ =~= before@.push(t));
    }

    /// Adds the items of `items` at the back of the queue, in their
    /// order, for the participant `me`. Slots are claimed in runs of up
    /// to half a segment, and each run is written under a pin of its
    /// own.
    pub fn push_bulk(&mut self, items: Vec<T>, state: &mut EpochState, me: usize)
        requires
            old(self).wf(&old(state).heap),
            old(state).wf(),
            old(state).enrolled(me),
            old(state).in_critical(me) < usize::MAX,
        ensures
            final(self).wf(&final(state).heap),
            final(state).wf(),
            final(self)@ == old(self)@ + items@,
            final(self).pushed() == old(self).pushed() + items@.len(),
            final(self).popped() == old(self).popped(),
            final(state).enrolled(me),
            final(state).in_critical(me) == old(state).in_critical(me),
            old(state).keeps_live_but(final(state), old(self).nodes()),
    {
        // turn the items over, so that taking from the end takes the first
        let mut items = items;
        let ghost all = items@;
        let mut rest: Vec<T> = Vec::new();
        while items.len() > 0
            invariant
                rest@.len() + items@.len() == all.len(),
                items@ == all.subrange(0, items@.len() as int),
                forall|i: int| 0 <= i < rest@.len() ==> rest@[i] == all[all.len() - 1 - i],
            decreases items@.len(),
        {
            let ghost before = items@;
            let t = items.pop().unwrap();
            rest.push(t);
            proof {
                assert(items@ =~= all.subrange(0, items@.len() as int));
            }
        }
        let mut elems_left: usize = rest.len();
        proof {
            assert(self@ + all.subrange(0, 0) =~= self@);
            old(state).lemma_keeps_refl(old(self).nodes());
        }
        while elems_left > 0
            invariant
                self.wf(&state.heap),
                state.wf(),
                state.enrolled(me),
                state.in_critical(me) == old(state).in_critical(me),
                old(state).in_critical(me) < usize::MAX,
                elems_left == rest@.len(),
                elems_left <= all.len(),
                forall|i: int| 0 <= i < rest@.len() ==> rest@[i] == all[all.len() - 1 - i],
                self@ == old(self)@ + all.subrange(0, all.len() - elems_left),
                self.pushed@ == old(self).pushed@ + all.len() - elems_left,
                self.popped@ == old(self).popped@,
                old(state).keeps_live_but(state, old(self).nodes()),
                forall|i: int|
                    0 <= i < old(self).nodes().len() ==> self.nodes().contains(
                        #[trigger] old(self).nodes()[i],
                    ),
            decreases elems_left,
        {
            let ghost round = *self;
            let ghost entered = *state;
            let ghost done = all.len() - elems_left;
            let guard = pin(state, me);
            let ghost pinned = *state;
            let ghost chain = self.chain@;
            let ghost p = self.pushed@;
            proof {
                self.lemma_wf_step(&entered, &pinned);
                entered.lemma_step_keeps(&pinned, chain);
                pinned.lemma_record_inv(me);
                lemma_seg(&self.segs, &pinned.heap, chain, chain.len() - 1);
            }
            let try_to_push: usize = if elems_left < SEG_SIZE / 2 {
                elems_left
            } else {
                SEG_SIZE / 2
            };
            let tail = self.tail.load(MemOrder::Acquire, &guard).unwrap();
            let a: usize = tail.as_raw();
            if self.segs.get(tail, &state.heap).high >= SEG_SIZE {
                // another push is about to link a new segment
                guard.release(state);
                continue ;
            }
            let j: usize = self.fetch_add_high_by(a, try_to_push);
            if j >= SEG_SIZE {
                guard.release(state);
                continue ;
            }
            let ghost claimed_segs = self.segs;
            // make room before writing, so that others can go on
            if j + try_to_push >= SEG_SIZE {
                let fresh = self.segs.publish(Owned::new(Segment::new()), &mut state.heap);
                let ghost published = self.segs;
                proof {
                    assert(a != fresh.addr());
                    assert(claimed_segs.same_at(&published, a));
                }
                self.set_next(a, Some(fresh));
                self.tail.store_shared(Some(fresh), MemOrder::Release);
                proof {
                    self.chain = Ghost(chain.push(fresh.addr()));
                    pinned.lemma_allocated(state, fresh.addr());
                    assert forall|b: usize| b != a && b != fresh.addr() implies round.segs.same_at(
                        &self.segs,
                        b,
                    ) by {
                        assert(round.segs.same_at(&claimed_segs, b));
                        assert(claimed_segs.same_at(&published, b));
                        assert(published.same_at(&self.segs, b));
                    }
                    assert(published.same_at(&self.segs, fresh.addr()));
                    Self::lemma_claimed_linked(
                        &round,
                        self,
                        &pinned.heap,
                        &state.heap,
                        fresh.addr(),
                        try_to_push as int,
                    );
                }
            } else {
                proof {
                    Self::lemma_claimed_in_place(&round, self, &pinned.heap, try_to_push as int);
                }
            }
            let topush: usize = if j + try_to_push > SEG_SIZE {
                SEG_SIZE - j
            } else {
                try_to_push
            };
            let ghost claimed = p + topush;
            let ghost linked = *self;
            let ghost written_heap = *state;
            elems_left = elems_left - topush;
            let mut e: usize = j;
            while e < j + topush
                invariant
                    j <= e <= j + topush <= SEG_SIZE,
                    j == p % 32,
                    0 <= done,
                    0 <= linked.popped@ <= p,
                    0 <= p / 32 - linked.first() < linked.chain@.len(),
                    a == linked.chain@[p / 32 - linked.first()],
                    self.shaped(&written_heap.heap, claimed),
                    filled(&self.segs, self.chain@, self.first(), self.popped@, self.pushed@),
                    self.pushed@ == p + (e - j),
                    self.popped@ == linked.popped@,
                    self.chain@ == linked.chain@,
                    self.first() == linked.first(),
                    claimed == p + topush,
                    rest@.len() == elems_left + (j + topush - e),
                    forall|i: int| 0 <= i < rest@.len() ==> rest@[i] == all[all.len() - 1 - i],
                    elems_left + topush + done == all.len(),
                    self@ == old(self)@ + all.subrange(0, done + (e - j)),
                    *state == written_heap,
                decreases j + topush - e,
            {
                let ghost before = *self;
                match rest.pop() {
                    Some(val) => {
                        proof {
                            lemma_seg(
                                &self.segs,
                                &written_heap.heap,
                                self.chain@,
                                self.pushed@ / 32 - self.first(),
                            );
                            assert(val == all[done + (e - j)]);
                        }
                        self.write_slot(a, e, val);
                        proof {
                            self.pushed = Ghost(before.pushed@ + 1);
                            Self::lemma_filled_one(
                                &before,
                                self,
                                &written_heap.heap,
                                claimed,
                                val,
                            );
                            assert(all.subrange(0, done + (e - j)).push(val) =~= all.subrange(
                                0,
                                done + (e - j) + 1,
                            ));
                            assert((old(self)@ + all.subrange(0,
                                done + (e - j))).push(val) =~= old(self)@ + all.subrange(0,
                                done + (e - j) + 1));
                        }
                    },
                    None => {},
                }
                e = e + 1;
            }
            guard.release(state);
            proof {
                assert forall|c: usize|
                    old(state).heap.is_live(c) && old(state).heap.kind(c) != RECORD_KIND
                        && !old(self).nodes().contains(c) implies (#[trigger] state.heap.is_live(c))
                    && state.heap.kind(c) == old(state).heap.kind(c) by {
                    assert(entered.heap.is_live(c));
                    if round.nodes().contains(c) {
                        let i = choose|i: int| 0 <= i < chain.len() && chain[i] == c;
                        lemma_seg(&round.segs, &pinned.heap, chain, i);
                    } else {
                        assert(pinned.heap.is_live(c));
                    }
                    assert(pinned.heap.same_cell(&state.heap, c));
                }
                assert forall|i: int| 0 <= i < old(self).nodes().len() implies
                    self.nodes().contains(#[trigger] old(self).nodes()[i]) by {
                    let c = old(self).nodes()[i];
                    assert(round.nodes().contains(c));
                    let k = choose|k: int| 0 <= k < chain.len() && chain[k] == c;
                    assert(self.chain@[k] == c);
                }
            }
        }
        proof {
            assert(all.subrange(0, all.len() as int) =~= all);
        }
    }
}

} // verus!
