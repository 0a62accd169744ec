//! A single-producer, single-consumer queue over a chain of segments.
//!
//! Items carry consecutive numbers, starting at 1. The item numbered `c`
//! lives in slot `c % SEG_SIZE` of the segment that holds the numbers from
//! `c - c % SEG_SIZE` on. The producer links a fresh segment whenever its
//! number reaches a multiple of `SEG_SIZE`; the consumer gives a segment back
//! when it steps past its last slot. Up to `CACHE_LIMIT` segments that were
//! given back wait on a stack to be used again.

use vstd::prelude::*;
use crate::sync::order::{fifo_after, taken, Op};

verus! {

/// Slots per segment.
pub const SEG_SIZE: usize = 64;

/// Most segments kept for reuse.
pub const CACHE_LIMIT: usize = 3;

/// One more than the largest index: the modulus of the two running indices.
pub open spec fn index_modulus() -> int {
    usize::MAX + 1
}

/// The modulus of the indices is a multiple of the segment size, so the slot
/// of an item is the same whether it is taken from the item's number or from
/// the wrapped index.
proof fn lemma_slot_of_wrapped(c: int)
    requires
        0 <= c,
    ensures
        (c % index_modulus()) % 64 == c % 64,
{
    let w = index_modulus();
    assert(usize::MAX == 0xffff_ffff || usize::MAX == 0xffff_ffff_ffff_ffff);
    let k: int = if usize::MAX == 0xffff_ffff {
        0x400_0000
    } else {
        0x400_0000_0000_0000
    };
    assert(w == 64 * k);
    vstd::arithmetic::div_mod::lemma_mod_mod(c, 64, k);
}

/// If `b` lies less than `n` above `a`, the two differ modulo `n`.
proof fn lemma_apart(a: int, b: int, n: int)
    requires
        0 <= a < b < a + n,
    ensures
        a % n != b % n,
{
    vstd::arithmetic::div_mod::lemma_fundamental_div_mod(a, n);
    vstd::arithmetic::div_mod::lemma_fundamental_div_mod(b, n);
    let qa = a / n;
    let qb = b / n;
    if a % n == b % n {
        assert(b - a == n * (qb - qa)) by (nonlinear_arith)
            requires
                a == n * qa + a % n,
                b == n * qb + b % n,
                a % n == b % n,
        ;
        assert(false) by (nonlinear_arith)
            requires
                b - a == n * (qb - qa),
                0 < b - a < n,
        ;
    }
}

/// If `b` lies at most `n` above `a`, the two agree modulo `n` exactly when
/// they are equal or `n` apart.
proof fn lemma_same(a: int, b: int, n: int)
    requires
        0 <= a <= b <= a + n,
        0 < n,
    ensures
        (a % n == b % n) <==> (b == a || b == a + n),
{
    if a < b && b < a + n {
        lemma_apart(a, b, n);
    }
    if b == a + n {
        vstd::arithmetic::div_mod::lemma_mod_add_multiples_vanish(a, n);
    }
}

/// Stepping an index forward by one, wrapping at `n`.
proof fn lemma_succ(a: int, n: int)
    requires
        0 <= a,
        0 < n,
    ensures
        (a + 1) % n == (if a % n + 1 == n {
            0
        } else {
            a % n + 1
        }),
{
    vstd::arithmetic::div_mod::lemma_fundamental_div_mod(a, n);
    let q = a / n;
    let r = a % n;
    if r + 1 == n {
        assert(a + 1 == n * (q + 1)) by (nonlinear_arith)
            requires
                a == n * q + r,
                r + 1 == n,
        ;
        vstd::arithmetic::div_mod::lemma_mod_multiples_basic(q + 1, n);
        assert(n * (q + 1) == (q + 1) * n) by (nonlinear_arith);
    } else {
        assert(a + 1 == q * n + (r + 1)) by (nonlinear_arith)
            requires
                a == n * q + r,
        ;
        vstd::arithmetic::div_mod::lemma_fundamental_div_mod_converse(a + 1, n, q, r + 1);
    }
}

/// A block of `SEG_SIZE` slots with the address of the block after it
/// (0 when there is none).
pub struct Segment<T> {
    data: Vec<Option<T>>,
    next: usize,
}

impl<T> Segment<T> {
    /// The slots of the segment.
    pub closed spec fn slots(&self) -> Seq<Option<T>> {
        self.data@
    }

    /// The address of the following segment, 0 for none.
    pub closed spec fn next(&self) -> usize {
        self.next
    }

    /// A segment of empty slots that is linked to nothing.
    pub fn new() -> (s: Segment<T>)
        ensures
            s.slots().len() == SEG_SIZE,
            s.next() == 0,
            forall|i: int| 0 <= i < SEG_SIZE ==> s.slots()[i] is None,
    {
        let mut data: Vec<Option<T>> = Vec::new();
        let mut i: usize = 0;
        while i < SEG_SIZE
            invariant
                i <= SEG_SIZE,
                data@.len() == i,
                forall|k: int| 0 <= k < i ==> data@[k] is None,
            decreases SEG_SIZE - i,
        {
            data.push(None);
            i = i + 1;
        }
        Segment { data, next: 0 }
    }
}

/// The queue: the segments, the two running indices with each side's cached
/// copy of the other's, the stack of spare segments and the two liveness
/// flags.
pub struct SpscQueue<T> {
    segments: Vec<Option<Segment<T>>>,
    vacant: Vec<usize>,
    cache_stack: usize,
    cache_size: usize,
    // consumer side
    head: usize,
    head_block: usize,
    tail_cache: usize,
    prod_alive: bool,
    // producer side
    tail: usize,
    tail_block: usize,
    head_cache: usize,
    cons_alive: bool,
    // the number of the next item to push and to pop, and the numbers that
    // the two cached indices stand for
    pushed: Ghost<int>,
    popped: Ghost<int>,
    head_seen: Ghost<int>,
    tail_seen: Ghost<int>,
    // the segments in use, from the consumer's to the producer's, and the
    // spare ones from the top of the stack down
    chain: Ghost<Seq<usize>>,
    spare: Ghost<Seq<usize>>,
}

/// The consumer's handle on a queue.
pub struct BoundedConsumer {
    _private: (),
}

/// The producer's handle on a queue.
pub struct BoundedProducer {
    _private: (),
}

/// Sets `*cell` to `new` if it holds `current`; returns what it held.
fn compare_and_swap(cell: &mut usize, current: usize, new: usize) -> (prev: usize)
    ensures
        prev == *old(cell),
        *final(cell) == (if prev == current {
            new
        } else {
            prev
        }),
{
    let prev: usize = *cell;
    if prev == current {
        *cell = new;
    }
    prev
}

/// Whether `a` is the address of a segment in `segs`.
spec fn seg_live<T>(segs: Seq<Option<Segment<T>>>, a: usize) -> bool {
    &&& 1 <= a <= segs.len()
    &&& segs[a - 1] is Some
    &&& (segs[a - 1]->0).data@.len() == SEG_SIZE
}

/// The segment at address `a`.
spec fn seg_at<T>(segs: Seq<Option<Segment<T>>>, a: usize) -> Segment<T> {
    segs[a - 1]->0
}

/// Whether the addresses in `s` name distinct segments, each linked to the
/// one after it and the last to nothing.
spec fn chain_linked<T>(segs: Seq<Option<Segment<T>>>, s: Seq<usize>) -> bool {
    &&& forall|j: int| 0 <= j < s.len() ==> seg_live(segs, #[trigger] s[j])
    &&& forall|j: int|
        0 <= j < s.len() ==> (#[trigger] seg_at(segs, s[j])).next == (if j + 1 < s.len() {
            s[j + 1]
        } else {
            0
        })
    &&& forall|i: int, j: int| 0 <= i < j < s.len() ==> s[i] != s[j]
}

/// What the slot of item number `c` holds, when `chain` starts with the
/// segment of the numbers from `64 * first` on.
spec fn cell<T>(segs: Seq<Option<Segment<T>>>, chain: Seq<usize>, first: int, c: int) -> Option<T> {
    seg_at(segs, chain[c / 64 - first]).data@[c % 64]
}

/// The segments named in `s` are segments of `then` too, with the same slots.
spec fn slots_kept<T>(
    segs: Seq<Option<Segment<T>>>,
    then: Seq<Option<Segment<T>>>,
    s: Seq<usize>,
) -> bool {
    forall|j: int|
        0 <= j < s.len() ==> seg_live(then, #[trigger] s[j]) && seg_at(then, s[j]).data == seg_at(
            segs,
            s[j],
        ).data
}

/// Segments that keep their slots keep what every item's slot holds.
proof fn lemma_cells_kept<T>(
    segs: Seq<Option<Segment<T>>>,
    then: Seq<Option<Segment<T>>>,
    chain: Seq<usize>,
    first: int,
    lo: int,
    hi: int,
)
    requires
        slots_kept(segs, then, chain),
        64 * first <= lo,
        hi <= 64 * (first + chain.len()),
    ensures
        forall|c: int| lo <= c < hi ==> cell(then, chain, first, c) == cell(segs, chain, first, c),
{
    assert forall|c: int| lo <= c < hi implies cell(then, chain, first, c) == cell(
        segs,
        chain,
        first,
        c,
    ) by {
        let j = c / 64 - first;
        assert(seg_live(then, chain[j]));
    }
}

/// Appending a segment to the chain moves no item.
proof fn lemma_cells_extended<T>(
    segs: Seq<Option<Segment<T>>>,
    chain: Seq<usize>,
    a: usize,
    first: int,
    lo: int,
    hi: int,
)
    requires
        64 * first <= lo,
        hi <= 64 * (first + chain.len()),
    ensures
        forall|c: int|
            lo <= c < hi ==> cell(segs, chain.push(a), first, c) == cell(segs, chain, first, c),
{
    assert forall|c: int| lo <= c < hi implies cell(segs, chain.push(a), first, c) == cell(
        segs,
        chain,
        first,
        c,
    ) by {
        let j = c / 64 - first;
        assert(chain.push(a)[j] == chain[j]);
    }
}

/// Dropping the first segment of the chain moves no item of the later ones.
proof fn lemma_cells_cut<T>(
    segs: Seq<Option<Segment<T>>>,
    chain: Seq<usize>,
    first: int,
    lo: int,
    hi: int,
)
    requires
        chain.len() >= 1,
        64 * (first + 1) <= lo,
        hi <= 64 * (first + chain.len()),
    ensures
        forall|c: int|
            lo <= c < hi ==> cell(segs, chain.subrange(1, chain.len() as int), first + 1, c)
                == cell(segs, chain, first, c),
{
    let rest = chain.subrange(1, chain.len() as int);
    assert forall|c: int| lo <= c < hi implies cell(segs, rest, first + 1, c) == cell(
        segs,
        chain,
        first,
        c,
    ) by {
        let j = c / 64 - first;
        assert(rest[j - 1] == chain[j]);
    }
}

/// Writing one slot of one segment of a linked chain changes what that
/// item's slot holds and no other.
proof fn lemma_cells_written<T>(
    segs: Seq<Option<Segment<T>>>,
    then: Seq<Option<Segment<T>>>,
    chain: Seq<usize>,
    first: int,
    at: int,
    v: Option<T>,
    lo: int,
    hi: int,
)
    requires
        chain_linked(segs, chain),
        64 * first <= lo,
        hi <= 64 * (first + chain.len()),
        64 * first <= at < 64 * (first + chain.len()),
        then.len() == segs.len(),
        seg_live(then, chain[at / 64 - first]),
        seg_at(then, chain[at / 64 - first]).next == seg_at(segs, chain[at / 64 - first]).next,
        seg_at(then, chain[at / 64 - first]).data@ == seg_at(
            segs,
            chain[at / 64 - first],
        ).data@.update(at % 64, v),
        forall|b: int|
            0 <= b < segs.len() && b != chain[at / 64 - first] - 1 ==> then[b] == segs[b],
    ensures
        chain_linked(then, chain),
        cell(then, chain, first, at) == v,
        forall|c: int|
            lo <= c < hi && c != at ==> cell(then, chain, first, c) == cell(segs, chain, first, c),
{
    let ja = at / 64 - first;
    assert(seg_live(segs, chain[ja]));
    assert forall|j: int| 0 <= j < chain.len() implies seg_live(then, #[trigger] chain[j]) by {
        assert(seg_live(segs, chain[j]));
    }
    assert forall|j: int| 0 <= j < chain.len() implies (#[trigger] seg_at(then, chain[j])).next
        == (if j + 1 < chain.len() {
        chain[j + 1]
    } else {
        0
    }) by {
        assert(seg_live(segs, chain[j]));
        assert(seg_at(segs, chain[j]).next == (if j + 1 < chain.len() {
            chain[j + 1]
        } else {
            0
        }));
    }
    assert forall|c: int| lo <= c < hi && c != at implies cell(then, chain, first, c) == cell(
        segs,
        chain,
        first,
        c,
    ) by {
        let j = c / 64 - first;
        assert(seg_live(segs, chain[j]));
        if j != ja {
            assert(chain[j] != chain[ja]);
        }
    }
}

impl<T> SpscQueue<T> {
    spec fn live(&self, a: usize) -> bool {
        seg_live(self.segments@, a)
    }

    spec fn seg(&self, a: usize) -> Segment<T> {
        seg_at(self.segments@, a)
    }

    spec fn first_block(&self) -> int {
        (self.popped@ - 1) / 64
    }

    spec fn slot(&self, c: int) -> Option<T> {
        cell(self.segments@, self.chain@, self.first_block(), c)
    }

    spec fn linked(&self, s: Seq<usize>) -> bool {
        chain_linked(self.segments@, s)
    }

    spec fn indices_wf(&self) -> bool {
        let w = index_modulus();
        &&& 1 <= self.popped@ <= self.pushed@
        &&& self.pushed@ - self.popped@ <= w - 1
        &&& self.head as int == self.popped@ % w
        &&& self.tail as int == self.pushed@ % w
        &&& 0 <= self.head_seen@ <= self.popped@
        &&& self.pushed@ - self.head_seen@ <= w - 1
        &&& self.head_cache as int == self.head_seen@ % w
        &&& self.popped@ <= self.tail_seen@ <= self.pushed@
        &&& self.tail_cache as int == self.tail_seen@ % w
    }

    spec fn store_wf(&self) -> bool {
        &&& self.linked(self.chain@)
        &&& self.linked(self.spare@)
        &&& forall|i: int, j: int|
            0 <= i < self.chain@.len() && 0 <= j < self.spare@.len() ==> self.chain@[i]
                != self.spare@[j]
        &&& self.spare@.len() == self.cache_size <= CACHE_LIMIT
        &&& self.cache_stack == (if self.spare@.len() > 0 {
            self.spare@[0]
        } else {
            0
        })
        &&& forall|i: int|
            0 <= i < self.vacant@.len() ==> 1 <= #[trigger] self.vacant@[i] <= self.segments@.len()
                && self.segments@[self.vacant@[i] - 1] is None
        &&& forall|i: int, j: int|
            0 <= i < j < self.vacant@.len() ==> self.vacant@[i] != self.vacant@[j]
    }

    /// No segment is lost: every segment of the store is in use, or
    /// spare, or the one at `but`.
    spec fn tidy_but(&self, but: usize) -> bool {
        forall|a: usize| #[trigger]
            self.live(a) ==> self.chain@.contains(a) || self.spare@.contains(a) || a == but
    }

    /// Structural invariant of the queue.
    pub closed spec fn wf(&self) -> bool {
        &&& self.indices_wf()
        &&& self.store_wf()
        &&& self.tidy_but(0)
        &&& self.chain@.len() == (self.pushed@ - 1) / 64 - self.first_block() + 1
        &&& self.head_block == self.chain@[0]
        &&& self.tail_block == self.chain@.last()
        &&& forall|c: int| self.popped@ <= c < self.pushed@ ==> (#[trigger] self.slot(c)) is Some
    }

    /// The items in the queue, oldest first.
    pub closed spec fn view(&self) -> Seq<T> {
        Seq::new((self.pushed@ - self.popped@) as nat, |i: int| self.slot(self.popped@ + i)->0)
    }

    /// The running index of the slot to read next, which the consumer
    /// moves.
    pub closed spec fn head_index(&self) -> usize {
        self.head
    }

    /// The running index of the slot to write next, which the producer
    /// moves.
    pub closed spec fn tail_index(&self) -> usize {
        self.tail
    }

    /// The producer's copy of the head index.
    pub closed spec fn head_cached(&self) -> usize {
        self.head_cache
    }

    /// The consumer's copy of the tail index.
    pub closed spec fn tail_cached(&self) -> usize {
        self.tail_cache
    }

    /// The running index that follows `i`: the indices wrap.
    pub open spec fn index_after(i: usize) -> usize {
        if i == usize::MAX {
            0
        } else {
            (i + 1) as usize
        }
    }

    /// What a push, which succeeds or not, makes of the indices: the
    /// producer reads the head index only if its copy says that the queue
    /// is full, and then keeps what it read as its copy; it moves the tail
    /// index on if it pushes; the consumer's index and copy stay.
    pub open spec fn push_indices(&self, then: &Self, pushed: bool) -> bool {
        &&& then.head_index() == self.head_index()
        &&& then.tail_cached() == self.tail_cached()
        &&& then.head_cached() == (if Self::index_after(self.tail_index()) == self.head_cached() {
            self.head_index()
        } else {
            self.head_cached()
        })
        &&& then.tail_index() == (if pushed {
            Self::index_after(self.tail_index())
        } else {
            self.tail_index()
        })
    }

    /// What a pop, which succeeds or not, makes of the indices: the
    /// consumer reads the tail index only if its copy says that the queue
    /// is empty, and then keeps what it read as its copy; it moves the
    /// head index on if it pops; the producer's index and copy stay.
    pub open spec fn pop_indices(&self, then: &Self, popped: bool) -> bool {
        &&& then.tail_index() == self.tail_index()
        &&& then.head_cached() == self.head_cached()
        &&& then.tail_cached() == (if self.head_index() == self.tail_cached() {
            self.tail_index()
        } else {
            self.tail_cached()
        })
        &&& then.head_index() == (if popped {
            Self::index_after(self.head_index())
        } else {
            self.head_index()
        })
    }

    /// Whether a producer handle is out.
    pub closed spec fn producer_alive(&self) -> bool {
        self.prod_alive
    }

    /// Whether a consumer handle is out.
    pub closed spec fn consumer_alive(&self) -> bool {
        self.cons_alive
    }

    /// The number of segments that wait to be used again.
    pub closed spec fn spare_segments(&self) -> nat {
        self.spare@.len()
    }

    /// The number of segments that hold, or are ready to hold, items.
    pub closed spec fn segments_in_use(&self) -> nat {
        self.chain@.len()
    }

    /// The number that the next item pushed gets. Items are numbered from
    /// 1 on, and item `c` lives in slot `c % 64` of a segment of its own
    /// 64 items: an item whose number is a multiple of 64 opens a segment.
    pub closed spec fn next_in(&self) -> int {
        self.pushed@
    }

    /// The number of the next item to pop.
    pub closed spec fn next_out(&self) -> int {
        self.popped@
    }

    /// The spare segments after one was taken for use: the first is gone,
    /// if there was one.
    pub open spec fn spares_less_one(spares: Seq<usize>) -> Seq<usize> {
        if spares.len() > 0 {
            spares.subrange(1, spares.len() as int)
        } else {
            spares
        }
    }

    /// The spare segments after the segment at `a` was given back: it is
    /// the first, unless `CACHE_LIMIT` segments were spare already.
    pub open spec fn spares_with(spares: Seq<usize>, a: usize) -> Seq<usize> {
        if spares.len() < CACHE_LIMIT {
            seq![a] + spares
        } else {
            spares
        }
    }

    /// Whether the segment store holds a segment at the address `a`.
    pub closed spec fn has_segment(&self, a: usize) -> bool {
        self.live(a)
    }

    /// The addresses of the segments in use, from the consumer's to the
    /// producer's.
    pub closed spec fn used(&self) -> Seq<usize> {
        self.chain@
    }

    /// The addresses of the spare segments, the one to be used next first.
    pub closed spec fn spares(&self) -> Seq<usize> {
        self.spare@
    }

    /// No segment is lost, and none is counted twice: the store holds the
    /// segments in use and the spare ones, each once, and no others. So a
    /// segment that the consumer has drained is spare or was given back to
    /// the allocator.
    pub proof fn lemma_segments_accounted(&self, a: usize)
        requires
            self.wf(),
        ensures
            self.has_segment(a) <==> self.used().contains(a) || self.spares().contains(a),
            !(self.used().contains(a) && self.spares().contains(a)),
            self.used().no_duplicates(),
            self.spares().no_duplicates(),
            self.used().len() == self.segments_in_use(),
            self.spares().len() == self.spare_segments(),
            !self.has_segment(0),
    {
        if self.chain@.contains(a) {
            let i = choose|i: int| 0 <= i < self.chain@.len() && self.chain@[i] == a;
            assert(self.live(self.chain@[i]));
            if self.spare@.contains(a) {
                let j = choose|j: int| 0 <= j < self.spare@.len() && self.spare@[j] == a;
                assert(self.chain@[i] != self.spare@[j]);
            }
        }
        if self.spare@.contains(a) {
            let j = choose|j: int| 0 <= j < self.spare@.len() && self.spare@[j] == a;
            assert(self.live(self.spare@[j]));
        }
    }

    /// What is tidy stays so when the lists stay and no segment comes to
    /// the store.
    proof fn lemma_tidy_kept(&self, then: &Self, but: usize)
        requires
            self.tidy_but(but),
            then.chain@ == self.chain@,
            then.spare@ == self.spare@,
            forall|a: usize| #[trigger] then.live(a) ==> self.live(a),
        ensures
            then.tidy_but(but),
    {
        assert forall|a: usize| #[trigger] then.live(a) implies then.chain@.contains(a)
            || then.spare@.contains(a) || a == but by {
            assert(self.live(a));
        }
    }

    /// Proves to a caller that a valid queue holds at most `usize::MAX`
    /// items and keeps at most `CACHE_LIMIT` spare segments.
    pub proof fn lemma_bounded(&self)
        requires
            self.wf(),
        ensures
            self@.len() <= usize::MAX,
            self.spare_segments() <= CACHE_LIMIT,
            self.segments_in_use() >= 1,
    {
    }

    /// Everything but the segment store is the same in `self` and `then`.
    spec fn same_indices(&self, then: &Self) -> bool {
        &&& self.head == then.head
        &&& self.head_block == then.head_block
        &&& self.tail_cache == then.tail_cache
        &&& self.prod_alive == then.prod_alive
        &&& self.tail == then.tail
        &&& self.tail_block == then.tail_block
        &&& self.head_cache == then.head_cache
        &&& self.cons_alive == then.cons_alive
        &&& self.pushed@ == then.pushed@
        &&& self.popped@ == then.popped@
        &&& self.head_seen@ == then.head_seen@
        &&& self.tail_seen@ == then.tail_seen@
        &&& self.chain@ == then.chain@
    }

    /// The segments named in `s` are live in `then` and hold what they held.
    spec fn kept(&self, then: &Self, s: Seq<usize>) -> bool {
        forall|j: int|
            0 <= j < s.len() ==> then.live(#[trigger] s[j]) && then.seg(s[j]) == self.seg(s[j])
    }

    fn seg_next(&self, a: usize) -> (r: usize)
        requires
            self.live(a),
        ensures
            r == self.seg(a).next,
    {
        match &self.segments[a - 1] {
            Some(seg) => seg.next,
            None => 0,
        }
    }

    fn set_seg_next(&mut self, a: usize, next: usize)
        requires
            old(self).live(a),
        ensures
            final(self).live(a),
            final(self).seg(a).next == next,
            final(self).seg(a).data == old(self).seg(a).data,
            final(self).segments@.len() == old(self).segments@.len(),
            forall|b: int|
                0 <= b < old(self).segments@.len() && b != a - 1 ==> final(self).segments@[b]
                    == old(self).segments@[b],
            old(self).same_indices(final(self)),
            final(self).vacant == old(self).vacant,
            final(self).spare == old(self).spare,
            final(self).cache_stack == old(self).cache_stack,
            final(self).cache_size == old(self).cache_size,
            forall|b: usize| final(self).live(b) == old(self).live(b),
    {
        match &mut self.segments[a - 1] {
            Some(seg) => {
                seg.next = next;
            },
            None => {},
        }
    }

    fn put_slot(&mut self, a: usize, k: usize, v: T)
        requires
            old(self).live(a),
            k < SEG_SIZE,
        ensures
            final(self).live(a),
            final(self).seg(a).next == old(self).seg(a).next,
            final(self).seg(a).data@ == old(self).seg(a).data@.update(k as int, Some(v)),
            final(self).segments@.len() == old(self).segments@.len(),
            forall|b: int|
                0 <= b < old(self).segments@.len() && b != a - 1 ==> final(self).segments@[b]
                    == old(self).segments@[b],
            old(self).same_indices(final(self)),
            final(self).vacant == old(self).vacant,
            final(self).spare == old(self).spare,
            final(self).cache_stack == old(self).cache_stack,
            final(self).cache_size == old(self).cache_size,
            forall|b: usize| final(self).live(b) == old(self).live(b),
    {
        match &mut self.segments[a - 1] {
            Some(seg) => {
                seg.data[k] = Some(v);
            },
            None => {},
        }
    }

    fn take_slot(&mut self, a: usize, k: usize) -> (r: Option<T>)
        requires
            old(self).live(a),
            k < SEG_SIZE,
        ensures
            r == old(self).seg(a).data@[k as int],
            final(self).live(a),
            final(self).seg(a).next == old(self).seg(a).next,
            final(self).seg(a).data@ == old(self).seg(a).data@.update(k as int, None),
            final(self).segments@.len() == old(self).segments@.len(),
            forall|b: int|
                0 <= b < old(self).segments@.len() && b != a - 1 ==> final(self).segments@[b]
                    == old(self).segments@[b],
            old(self).same_indices(final(self)),
            final(self).vacant == old(self).vacant,
            final(self).spare == old(self).spare,
            final(self).cache_stack == old(self).cache_stack,
            final(self).cache_size == old(self).cache_size,
            forall|b: usize| final(self).live(b) == old(self).live(b),
    {
        match &mut self.segments[a - 1] {
            Some(seg) => seg.data[k].take(),
            None => None,
        }
    }

    /// Allocates a fresh, unlinked segment and returns its address.
    fn alloc_segment(&mut self) -> (a: usize)
        requires
            old(self).store_wf(),
        ensures
            final(self).store_wf(),
            final(self).live(a),
            !old(self).live(a),
            final(self).seg(a).next == 0,
            forall|b: usize| b != a ==> final(self).live(b) == old(self).live(b),
            old(self).same_indices(final(self)),
            old(self).kept(final(self), old(self).chain@),
            final(self).spare == old(self).spare,
    {
        let seg = Segment::new();
        let a: usize = match self.vacant.pop() {
            Some(a) => {
                assert(a == old(self).vacant@[old(self).vacant@.len() - 1]);
                self.segments[a - 1] = Some(seg);
                a
            },
            None => {
                self.segments.push(Some(seg));
                self.segments.len()
            },
        };
        proof {
            assert forall|j: int| 0 <= j < self.chain@.len() implies self.live(
                #[trigger] self.chain@[j],
            ) && self.seg(self.chain@[j]) == old(self).seg(self.chain@[j]) by {
                assert(old(self).live(old(self).chain@[j]));
            }
            assert forall|j: int| 0 <= j < self.spare@.len() implies self.live(
                #[trigger] self.spare@[j],
            ) && self.seg(self.spare@[j]) == old(self).seg(self.spare@[j]) by {
                assert(old(self).live(old(self).spare@[j]));
            }
            assert(self.linked(self.chain@)) by {
                assert forall|j: int| 0 <= j < self.chain@.len() implies (#[trigger] self.seg(
                    self.chain@[j],
                )).next == (if j + 1 < self.chain@.len() {
                    self.chain@[j + 1]
                } else {
                    0
                }) by {
                    assert(self.seg(self.chain@[j]) == old(self).seg(old(self).chain@[j]));
                }
            }
            assert(self.linked(self.spare@)) by {
                assert forall|j: int| 0 <= j < self.spare@.len() implies (#[trigger] self.seg(
                    self.spare@[j],
                )).next == (if j + 1 < self.spare@.len() {
                    self.spare@[j + 1]
                } else {
                    0
                }) by {
                    assert(self.seg(self.spare@[j]) == old(self).seg(old(self).spare@[j]));
                }
            }
        }
        a
    }

    /// Gives the segment at `a` back to the allocator: the store holds no
    /// segment at `a` any more, and the address is the next to be handed
    /// out again. Every other segment is as it was.
    fn free_segment(&mut self, a: usize)
        requires
            old(self).store_wf(),
            old(self).live(a),
            forall|j: int| 0 <= j < old(self).chain@.len() ==> old(self).chain@[j] != a,
            forall|j: int| 0 <= j < old(self).spare@.len() ==> old(self).spare@[j] != a,
        ensures
            final(self).store_wf(),
            !final(self).live(a),
            final(self).vacant@ == old(self).vacant@.push(a),
            final(self).segments@ == old(self).segments@.update(a - 1, None),
            forall|b: usize| b != a ==> final(self).live(b) == old(self).live(b),
            old(self).same_indices(final(self)),
            old(self).kept(final(self), old(self).chain@),
            final(self).spare == old(self).spare,
            final(self).cache_stack == old(self).cache_stack,
            final(self).cache_size == old(self).cache_size,
    {
        self.segments[a - 1] = None;
        self.vacant.push(a);
        proof {
            assert forall|j: int| 0 <= j < self.chain@.len() implies self.live(
                #[trigger] self.chain@[j],
            ) && self.seg(self.chain@[j]) == old(self).seg(self.chain@[j]) by {
                assert(old(self).live(old(self).chain@[j]));
            }
            assert forall|j: int| 0 <= j < self.spare@.len() implies self.live(
                #[trigger] self.spare@[j],
            ) && self.seg(self.spare@[j]) == old(self).seg(self.spare@[j]) by {
                assert(old(self).live(old(self).spare@[j]));
            }
            assert(self.linked(self.chain@)) by {
                assert forall|j: int| 0 <= j < self.chain@.len() implies (#[trigger] self.seg(
                    self.chain@[j],
                )).next == (if j + 1 < self.chain@.len() {
                    self.chain@[j + 1]
                } else {
                    0
                }) by {
                    assert(self.seg(self.chain@[j]) == old(self).seg(old(self).chain@[j]));
                }
            }
            assert(self.linked(self.spare@)) by {
                assert forall|j: int| 0 <= j < self.spare@.len() implies (#[trigger] self.seg(
                    self.spare@[j],
                )).next == (if j + 1 < self.spare@.len() {
                    self.spare@[j + 1]
                } else {
                    0
                }) by {
                    assert(self.seg(self.spare@[j]) == old(self).seg(old(self).spare@[j]));
                }
            }
            assert forall|i: int| 0 <= i < self.vacant@.len()
                implies 1 <= #[trigger] self.vacant@[i]
                <= self.segments@.len() && self.segments@[self.vacant@[i] - 1] is None by {
                if i < old(self).vacant@.len() {
                    assert(self.vacant@[i] == old(self).vacant@[i]);
                }
            }
            assert forall|i: int, j: int| 0 <= i < j < self.vacant@.len() implies self.vacant@[i]
                != self.vacant@[j] by {
                assert(self.vacant@[i] == old(self).vacant@[i]);
                if j < old(self).vacant@.len() {
                    assert(self.vacant@[j] == old(self).vacant@[j]);
                }
            }
        }
    }

    /// Takes a segment from the stack of spare ones, or allocates one when
    /// the stack is empty. The segment comes back unlinked.
    fn acquire_segment(&mut self) -> (a: usize)
        requires
            old(self).store_wf(),
        ensures
            final(self).store_wf(),
            final(self).live(a),
            final(self).seg(a).next == 0,
            forall|j: int| 0 <= j < old(self).chain@.len() ==> old(self).chain@[j] != a,
            forall|j: int| 0 <= j < final(self).spare@.len() ==> final(self).spare@[j] != a,
            old(self).tidy_but(0) ==> final(self).tidy_but(a),
            old(self).spare@.len() > 0 ==> a == old(self).spare@[0],
            old(self).spare@.len() == 0 ==> !old(self).live(a),
            old(self).same_indices(final(self)),
            old(self).kept(final(self), old(self).chain@),
            final(self).spare@ == (if old(self).spare@.len() > 0 {
                old(self).spare@.subrange(1, old(self).spare@.len() as int)
            } else {
                old(self).spare@
            }),
    {
        let mut chead: usize = self.cache_stack;
        loop
            invariant_except_break
                self == old(self),
                chead == self.cache_stack,
            invariant
                old(self).store_wf(),
            ensures
                self.store_wf(),
                self.live(chead),
                self.seg(chead).next == 0,
                forall|j: int| 0 <= j < old(self).chain@.len() ==> old(self).chain@[j] != chead,
                forall|j: int| 0 <= j < self.spare@.len() ==> self.spare@[j] != chead,
                old(self).tidy_but(0) ==> self.tidy_but(chead),
                old(self).spare@.len() > 0 ==> chead == old(self).spare@[0],
                old(self).spare@.len() == 0 ==> !old(self).live(chead),
                old(self).same_indices(self),
                old(self).kept(self, old(self).chain@),
                self.spare@ == (if old(self).spare@.len() > 0 {
                    old(self).spare@.subrange(1, old(self).spare@.len() as int)
                } else {
                    old(self).spare@
                }),
            decreases 0int,
        {
            if chead == 0 {
                chead = self.alloc_segment();
                proof {
                    assert forall|j: int| 0 <= j < old(self).chain@.len()
                        implies old(self).chain@[j] != chead by {
                        assert(old(self).live(old(self).chain@[j]));
                    }
                    assert forall|j: int| 0 <= j < self.spare@.len() implies self.spare@[j]
                        != chead by {
                        assert(old(self).live(old(self).spare@[j]));
                    }
                    if old(self).tidy_but(0) {
                        assert forall|b: usize| #[trigger] self.live(b)
                            implies self.chain@.contains(
                            b,
                        ) || self.spare@.contains(b) || b == chead by {
                            if b != chead {
                                assert(old(self).live(b));
                            }
                        }
                    }
                }
                break ;
            }
            assert(chead == self.spare@[0]);
            assert(self.live(self.spare@[0]));
            let next: usize = self.seg_next(chead);
            let cas: usize = compare_and_swap(&mut self.cache_stack, chead, next);
            if cas == chead {
                self.cache_size = self.cache_size - 1;
                let ghost before = *self;
                self.set_seg_next(chead, 0);
                proof {
                    let rest = old(self).spare@.subrange(1, old(self).spare@.len() as int);
                    self.spare = Ghost(rest);
                    assert forall|j: int| 0 <= j < self.chain@.len() implies self.live(
                        #[trigger] self.chain@[j],
                    ) && self.seg(self.chain@[j]) == old(self).seg(self.chain@[j]) by {
                        assert(old(self).live(old(self).chain@[j]));
                        assert(old(self).chain@[j] != old(self).spare@[0]);
                    }
                    assert forall|j: int| 0 <= j < rest.len() implies self.live(#[trigger] rest[j])
                        && self.seg(rest[j]) == old(self).seg(rest[j]) by {
                        assert(rest[j] == old(self).spare@[j + 1]);
                        assert(old(self).live(old(self).spare@[j + 1]));
                        assert(old(self).spare@[0] != old(self).spare@[j + 1]);
                    }
                    assert(self.linked(self.chain@)) by {
                        assert forall|j: int| 0 <= j < self.chain@.len() implies (
                        #[trigger] self.seg(self.chain@[j])).next == (if j + 1
                            < self.chain@.len() {
                            self.chain@[j + 1]
                        } else {
                            0
                        }) by {
                            assert(self.seg(self.chain@[j]) == old(self).seg(old(self).chain@[j]));
                        }
                    }
                    assert(self.linked(rest)) by {
                        assert forall|j: int| 0 <= j < rest.len() implies (#[trigger] self.seg(
                            rest[j],
                        )).next == (if j + 1 < rest.len() {
                            rest[j + 1]
                        } else {
                            0
                        }) by {
                            assert(self.seg(rest[j]) == old(self).seg(old(self).spare@[j + 1]));
                        }
                        assert forall|i: int, j: int| 0 <= i < j < rest.len() implies rest[i]
                            != rest[j] by {
                            assert(rest[i] == old(self).spare@[i + 1]);
                            assert(rest[j] == old(self).spare@[j + 1]);
                        }
                    }
                    assert forall|i: int, j: int|
                        0 <= i < self.chain@.len() && 0 <= j < rest.len() implies self.chain@[i]
                        != rest[j] by {
                        assert(rest[j] == old(self).spare@[j + 1]);
                    }
                    assert(next == (if rest.len() > 0 {
                        rest[0]
                    } else {
                        0
                    })) by {
                        assert(old(self).seg(old(self).spare@[0]).next == next);
                    }
                    assert forall|j: int| 0 <= j < old(self).chain@.len()
                        implies old(self).chain@[j] != chead by {
                        assert(old(self).chain@[j] != old(self).spare@[0]);
                    }
                    assert forall|j: int| 0 <= j < rest.len() implies rest[j] != chead by {
                        assert(rest[j] == old(self).spare@[j + 1]);
                    }
                    if old(self).tidy_but(0) {
                        assert forall|b: usize| #[trigger] self.live(b)
                            implies self.chain@.contains(
                            b,
                        ) || rest.contains(b) || b == chead by {
                            assert(old(self).live(b));
                            if old(self).spare@.contains(b) {
                                let j = choose|j: int|
                                    0 <= j < old(self).spare@.len() && old(self).spare@[j] == b;
                                if j > 0 {
                                    assert(rest[j - 1] == b);
                                }
                            }
                        }
                    }
                }
                break ;
            }
            chead = cas;
        }
        chead
    }

    /// Puts the segment at `seg` on the stack of spare ones, or frees it
    /// when `CACHE_LIMIT` segments wait there already.
    fn release_segment(&mut self, seg: usize)
        requires
            old(self).store_wf(),
            old(self).live(seg),
            forall|j: int| 0 <= j < old(self).chain@.len() ==> old(self).chain@[j] != seg,
            forall|j: int| 0 <= j < old(self).spare@.len() ==> old(self).spare@[j] != seg,
        ensures
            final(self).store_wf(),
            old(self).same_indices(final(self)),
            old(self).kept(final(self), old(self).chain@),
            final(self).spare@ == (if old(self).spare@.len() < CACHE_LIMIT {
                seq![seg] + old(self).spare@
            } else {
                old(self).spare@
            }),
            final(self).live(seg) == (old(self).spare@.len() < CACHE_LIMIT),
            forall|b: usize| b != seg ==> final(self).live(b) == old(self).live(b),
            old(self).tidy_but(seg) ==> final(self).tidy_but(0),
    {
        let mut chead: usize = self.cache_stack;
        loop
            invariant_except_break
                self == old(self),
                chead == self.cache_stack,
            invariant
                old(self).store_wf(),
                old(self).live(seg),
                forall|j: int| 0 <= j < old(self).chain@.len() ==> old(self).chain@[j] != seg,
                forall|j: int| 0 <= j < old(self).spare@.len() ==> old(self).spare@[j] != seg,
            ensures
                self.store_wf(),
                old(self).same_indices(self),
                old(self).kept(self, old(self).chain@),
                self.spare@ == (if old(self).spare@.len() < CACHE_LIMIT {
                    seq![seg] + old(self).spare@
                } else {
                    old(self).spare@
                }),
                self.live(seg) == (old(self).spare@.len() < CACHE_LIMIT),
                forall|b: usize| b != seg ==> self.live(b) == old(self).live(b),
                old(self).tidy_but(seg) ==> self.tidy_but(0),
            decreases 0int,
        {
            if self.cache_size >= CACHE_LIMIT {
                self.free_segment(seg);
                proof {
                    if old(self).tidy_but(seg) {
                        assert forall|b: usize| #[trigger] self.live(b)
                            implies self.chain@.contains(
                            b,
                        ) || self.spare@.contains(b) || b == 0 by {
                            assert(old(self).live(b));
                        }
                    }
                }
                break ;
            }
            self.set_seg_next(seg, chead);
            let ghost linked_state = *self;
            let cas: usize = compare_and_swap(&mut self.cache_stack, chead, seg);
            if cas == chead {
                self.cache_size = self.cache_size + 1;
                proof {
                    let more = seq![seg] + old(self).spare@;
                    self.spare = Ghost(more);
                    assert forall|j: int| 0 <= j < self.chain@.len() implies self.live(
                        #[trigger] self.chain@[j],
                    ) && self.seg(self.chain@[j]) == old(self).seg(self.chain@[j]) by {
                        assert(old(self).live(old(self).chain@[j]));
                    }
                    assert forall|j: int| 0 <= j < old(self).spare@.len() implies self.live(
                        #[trigger] old(self).spare@[j],
                    ) && self.seg(old(self).spare@[j]) == old(self).seg(old(self).spare@[j]) by {
                        assert(old(self).live(old(self).spare@[j]));
                    }
                    assert(self.linked(self.chain@)) by {
                        assert forall|j: int| 0 <= j < self.chain@.len() implies (
                        #[trigger] self.seg(self.chain@[j])).next == (if j + 1
                            < self.chain@.len() {
                            self.chain@[j + 1]
                        } else {
                            0
                        }) by {
                            assert(self.seg(self.chain@[j]) == old(self).seg(old(self).chain@[j]));
                        }
                    }
                    assert(self.linked(more)) by {
                        assert forall|j: int| 0 <= j < more.len() implies self.live(
                            #[trigger] more[j],
                        ) by {
                            if j > 0 {
                                assert(more[j] == old(self).spare@[j - 1]);
                            }
                        }
                        assert forall|j: int| 0 <= j < more.len() implies (#[trigger] self.seg(
                            more[j],
                        )).next == (if j + 1 < more.len() {
                            more[j + 1]
                        } else {
                            0
                        }) by {
                            if j > 0 {
                                assert(more[j] == old(self).spare@[j - 1]);
                                assert(self.seg(more[j]) == old(self).seg(old(self).spare@[j - 1]));
                            }
                        }
                        assert forall|i: int, j: int| 0 <= i < j < more.len() implies more[i]
                            != more[j] by {
                            assert(more[j] == old(self).spare@[j - 1]);
                            if i > 0 {
                                assert(more[i] == old(self).spare@[i - 1]);
                            }
                        }
                    }
                    assert forall|i: int, j: int|
                        0 <= i < self.chain@.len() && 0 <= j < more.len() implies self.chain@[i]
                        != more[j] by {
                        if j > 0 {
                            assert(more[j] == old(self).spare@[j - 1]);
                        }
                    }
                    assert(more[0] == seg);
                    if old(self).tidy_but(seg) {
                        assert forall|b: usize| #[trigger] self.live(b)
                            implies self.chain@.contains(
                            b,
                        ) || more.contains(b) || b == 0 by {
                            assert(old(self).live(b));
                            if old(self).spare@.contains(b) {
                                let j = choose|j: int|
                                    0 <= j < old(self).spare@.len() && old(self).spare@[j] == b;
                                assert(more[j + 1] == b);
                            }
                        }
                    }
                }
                break ;
            }
            chead = cas;
        }
    }

    /// A chain that is linked in one state is linked in a later one that
    /// kept its segments.
    proof fn lemma_linked_kept(&self, then: &Self, s: Seq<usize>)
        requires
            self.linked(s),
            self.kept(then, s),
        ensures
            then.linked(s),
    {
        assert forall|j: int| 0 <= j < s.len() implies (#[trigger] then.seg(s[j])).next == (if j
            + 1 < s.len() {
            s[j + 1]
        } else {
            0
        }) by {
            assert(then.seg(s[j]) == self.seg(s[j]));
        }
    }

    /// What follows the first segment of a linked chain is a linked chain.
    proof fn lemma_linked_rest(&self, s: Seq<usize>)
        requires
            self.linked(s),
            s.len() >= 1,
        ensures
            self.linked(s.subrange(1, s.len() as int)),
    {
        let rest = s.subrange(1, s.len() as int);
        assert forall|j: int| 0 <= j < rest.len() implies self.live(#[trigger] rest[j]) by {
            assert(rest[j] == s[j + 1]);
        }
        assert forall|j: int| 0 <= j < rest.len() implies (#[trigger] self.seg(rest[j])).next
            == (if j + 1 < rest.len() {
            rest[j + 1]
        } else {
            0
        }) by {
            assert(rest[j] == s[j + 1]);
            assert(self.seg(s[j + 1]).next == (if j + 2 < s.len() {
                s[j + 2]
            } else {
                0
            }));
        }
        assert forall|i: int, j: int| 0 <= i < j < rest.len() implies rest[i] != rest[j] by {
            assert(rest[i] == s[i + 1]);
            assert(rest[j] == s[j + 1]);
        }
    }

    /// Links a fresh segment behind the producer's and makes it the
    /// producer's segment.
    fn link_new_tail(&mut self) -> (a: usize)
        requires
            old(self).store_wf(),
            old(self).chain@.len() >= 1,
            old(self).tail_block == old(self).chain@.last(),
        ensures
            final(self).store_wf(),
            final(self).chain@ == old(self).chain@.push(a),
            final(self).tail_block == a,
            final(self).live(a),
            old(self).tidy_but(0) ==> final(self).tidy_but(0),
            final(self).spare@ == Self::spares_less_one(old(self).spare@),
            old(self).spare@.len() > 0 ==> a == old(self).spare@[0],
            old(self).spare@.len() == 0 ==> !old(self).live(a),
            slots_kept(old(self).segments@, final(self).segments@, old(self).chain@),
            final(self).head == old(self).head,
            final(self).head_block == old(self).head_block,
            final(self).tail_cache == old(self).tail_cache,
            final(self).prod_alive == old(self).prod_alive,
            final(self).tail == old(self).tail,
            final(self).head_cache == old(self).head_cache,
            final(self).cons_alive == old(self).cons_alive,
            final(self).pushed@ == old(self).pushed@,
            final(self).popped@ == old(self).popped@,
            final(self).head_seen@ == old(self).head_seen@,
            final(self).tail_seen@ == old(self).tail_seen@,
    {
        let tail_block: usize = self.tail_block;
        let next: usize = self.acquire_segment();
        let ghost acquired = *self;
        proof {
            old(self).lemma_linked_kept(&acquired, acquired.chain@);
        }
        self.set_seg_next(tail_block, next);
        self.tail_block = next;
        proof {
            self.chain = Ghost(acquired.chain@.push(next));
            let chain = self.chain@;
            let last = acquired.chain@.len() - 1;
            assert forall|j: int| 0 <= j < chain.len() implies self.live(#[trigger] chain[j]) by {
                if j <= last {
                    assert(acquired.live(acquired.chain@[j]));
                }
            }
            assert forall|j: int| 0 <= j < chain.len() implies (#[trigger] self.seg(
                chain[j],
            )).next == (if j + 1 < chain.len() {
                chain[j + 1]
            } else {
                0
            }) by {
                if j < last {
                    assert(acquired.live(acquired.chain@[j]));
                    assert(acquired.seg(acquired.chain@[j]).next == acquired.chain@[j + 1]);
                    assert(acquired.chain@[j] != acquired.chain@[last]);
                    assert(self.seg(chain[j]) == acquired.seg(chain[j]));
                } else if j == last {
                } else {
                    assert(self.seg(next) == acquired.seg(next));
                }
            }
            assert forall|j: int| 0 <= j < self.spare@.len() implies self.live(
                #[trigger] self.spare@[j],
            ) && self.seg(self.spare@[j]) == acquired.seg(self.spare@[j]) by {
                assert(acquired.live(acquired.spare@[j]));
            }
            acquired.lemma_linked_kept(self, self.spare@);
            if old(self).tidy_but(0) {
                assert forall|b: usize| #[trigger] self.live(b) implies chain.contains(b)
                    || self.spare@.contains(b) || b == 0 by {
                    assert(acquired.live(b));
                    assert(chain[last + 1] == next);
                    if acquired.chain@.contains(b) {
                        let j = choose|j: int|
                            0 <= j < acquired.chain@.len() && acquired.chain@[j] == b;
                        assert(chain[j] == b);
                    }
                }
            }
            assert forall|j: int| 0 <= j < old(self).chain@.len() implies seg_live(
                self.segments@,
                #[trigger] old(self).chain@[j],
            ) && seg_at(self.segments@, old(self).chain@[j]).data == seg_at(
                old(self).segments@,
                old(self).chain@[j],
            ).data by {
                assert(acquired.live(acquired.chain@[j]));
                assert(acquired.seg(acquired.chain@[j]) == old(self).seg(old(self).chain@[j]));
            }
        }
        next
    }

    /// Gives the consumer's segment back and makes the one after it the
    /// consumer's segment.
    fn drop_head_block(&mut self)
        requires
            old(self).store_wf(),
            old(self).chain@.len() >= 2,
            old(self).head_block == old(self).chain@[0],
        ensures
            final(self).store_wf(),
            final(self).chain@ == old(self).chain@.subrange(1, old(self).chain@.len() as int),
            final(self).head_block == old(self).chain@[1],
            old(self).tidy_but(0) ==> final(self).tidy_but(0),
            final(self).spare@ == Self::spares_with(old(self).spare@, old(self).chain@[0]),
            slots_kept(old(self).segments@, final(self).segments@, final(self).chain@),
            final(self).head == old(self).head,
            final(self).tail_block == old(self).tail_block,
            final(self).tail_cache == old(self).tail_cache,
            final(self).prod_alive == old(self).prod_alive,
            final(self).tail == old(self).tail,
            final(self).head_cache == old(self).head_cache,
            final(self).cons_alive == old(self).cons_alive,
            final(self).pushed@ == old(self).pushed@,
            final(self).popped@ == old(self).popped@,
            final(self).head_seen@ == old(self).head_seen@,
            final(self).tail_seen@ == old(self).tail_seen@,
    {
        let head_block: usize = self.head_block;
        assert(self.live(self.chain@[0]));
        assert(self.live(self.chain@[1]));
        let next: usize = self.seg_next(head_block);
        if next == 0 {
            // a segment with items behind it is linked to the next one
            return ;
        }
        proof {
            self.lemma_linked_rest(self.chain@);
            self.chain = Ghost(old(self).chain@.subrange(1, old(self).chain@.len() as int));
            assert forall|i: int, j: int|
                0 <= i < self.chain@.len() && 0 <= j < self.spare@.len() implies self.chain@[i]
                != self.spare@[j] by {
                assert(self.chain@[i] == old(self).chain@[i + 1]);
            }
            assert forall|j: int| 0 <= j < self.chain@.len() implies self.chain@[j]
                != head_block by {
                assert(self.chain@[j] == old(self).chain@[j + 1]);
            }
            if old(self).tidy_but(0) {
                assert forall|b: usize| #[trigger] self.live(b) implies self.chain@.contains(b)
                    || self.spare@.contains(b) || b == head_block by {
                    assert(old(self).live(b));
                    if old(self).chain@.contains(b) {
                        let j = choose|j: int|
                            0 <= j < old(self).chain@.len() && old(self).chain@[j] == b;
                        if j > 0 {
                            assert(self.chain@[j - 1] == b);
                        }
                    }
                }
            }
        }
        let ghost released = *self;
        self.release_segment(head_block);
        let ghost cached = *self;
        self.head_block = next;
        proof {
            if old(self).tidy_but(0) {
                assert(released.tidy_but(head_block));
                cached.lemma_tidy_kept(self, 0);
            }
            assert forall|j: int| 0 <= j < self.chain@.len() implies seg_live(
                self.segments@,
                #[trigger] self.chain@[j],
            ) && seg_at(self.segments@, self.chain@[j]).data == seg_at(
                old(self).segments@,
                self.chain@[j],
            ).data by {
                assert(self.live(self.chain@[j]));
            }
        }
    }

    /// Builds a value with `ctor` and appends it. Fails, handing `ctor` back
    /// uncalled, only when `usize::MAX` items are in the queue.
    #[verifier::rlimit(100)]
    pub fn try_construct<F: FnOnce() -> T>(&mut self, ctor: F) -> (r: Result<(), F>)
        requires
            old(self).wf(),
            ctor.requires(()),
        ensures
            final(self).wf(),
            final(self).producer_alive() == old(self).producer_alive(),
            final(self).consumer_alive() == old(self).consumer_alive(),
            r is Ok <==> old(self)@.len() < usize::MAX,
            r is Ok ==> final(self)@.len() == old(self)@.len() + 1
                && final(self)@.drop_last() == old(self)@
                && ctor.ensures((), final(self)@.last()),
            r matches Err(f) ==> f == ctor && final(self)@ == old(self)@,
            final(self).next_out() == old(self).next_out(),
            final(self).next_in() == old(self).next_in() + (if r is Ok {
                1int
            } else {
                0int
            }),
            // a refused push, and one into a segment that has room, leave
            // the segments alone
            r is Err || old(self).next_in() % 64 != 0 ==> final(self).used() == old(self).used()
                && final(self).spares() == old(self).spares(),
            // an item that opens a segment takes the first spare one, or a
            // new one if none is spare
            r is Ok && old(self).next_in() % 64 == 0 ==> final(self).used().len()
                == old(self).used().len() + 1 && final(self).used().drop_last() == old(self).used()
                && final(self).spares() == Self::spares_less_one(old(self).spares())
                    && (if old(self).spares().len() > 0 {
                final(self).used().last() == old(self).spares()[0]
            } else {
                !old(self).has_segment(final(self).used().last())
            }),
            old(self).push_indices(final(self), r is Ok),
    {
        let ghost w = index_modulus();
        let ghost p = self.pushed@;
        let ghost q = self.popped@;
        let ghost first = self.first_block();
        let ctail: usize = self.tail;
        let next_tail: usize = ctail.wrapping_add(1);
        proof {
            lemma_succ(p, w);
            lemma_same(self.head_seen@, p + 1, w);
            lemma_same(q, p + 1, w);
            lemma_slot_of_wrapped(p);
        }
        if next_tail == self.head_cache {
            let cur_head: usize = self.head;
            self.head_cache = cur_head;
            self.head_seen = Ghost(self.popped@);
            if next_tail == cur_head {
                proof {
                    old(self).lemma_tidy_kept(self, 0);
                    assert(self@ =~= old(self)@);
                }
                return Err(ctor);
            }
        }
        let write_ind: usize = ctail % SEG_SIZE;
        proof {
            old(self).lemma_tidy_kept(self, 0);
        }
        if write_ind == 0 {
            let ghost unlinked = *self;
            self.link_new_tail();
            proof {
                lemma_cells_kept(unlinked.segments@, self.segments@, unlinked.chain@, first, q, p);
                lemma_cells_extended(
                    self.segments@,
                    unlinked.chain@,
                    self.tail_block,
                    first,
                    q,
                    p,
                );
            }
        }
        let ghost ready = *self;
        let tail_block: usize = self.tail_block;
        assert(forall|c: int| q <= c < p ==> ready.slot(c) == old(self).slot(c));
        assert(ready.chain@.len() == p / 64 - first + 1);
        assert(tail_block == ready.chain@[p / 64 - first]);
        assert(ready.live(ready.chain@[p / 64 - first]));
        let value = ctor();
        self.put_slot(tail_block, write_ind, value);
        self.tail = next_tail;
        self.pushed = Ghost(p + 1);
        proof {
            lemma_cells_written(
                ready.segments@,
                self.segments@,
                ready.chain@,
                first,
                p,
                Some(value),
                q,
                p + 1,
            );
            assert forall|j: int| 0 <= j < ready.spare@.len() implies self.live(
                #[trigger] ready.spare@[j],
            ) && self.seg(ready.spare@[j]) == ready.seg(ready.spare@[j]) by {
                assert(ready.live(ready.spare@[j]));
            }
            ready.lemma_linked_kept(self, ready.spare@);
            ready.lemma_tidy_kept(self, 0);
            assert forall|c: int| q <= c < p + 1 implies (#[trigger] self.slot(c)) is Some by {
                if c < p {
                    assert(self.slot(c) == ready.slot(c));
                    assert(old(self).slot(c) is Some);
                }
            }
            assert forall|i: int| 0 <= i < p - q implies self@.drop_last()[i] == old(self)@[i] by {
                assert(self.slot(q + i) == ready.slot(q + i));
            }
            assert(self@.drop_last() =~= old(self)@);
            assert(self@.last() == value);
        }
        Ok(())
    }

    /// Removes the oldest item, or returns `None` when the queue is empty.
    #[verifier::rlimit(100)]
    pub fn try_pop(&mut self) -> (r: Option<T>)
        requires
            old(self).wf(),
        ensures
            final(self).wf(),
            final(self).producer_alive() == old(self).producer_alive(),
            final(self).consumer_alive() == old(self).consumer_alive(),
            r == taken(old(self)@, Op::Pop),
            final(self)@ == fifo_after(old(self)@, Op::Pop),
            r is None <==> old(self)@.len() == 0,
            r is None ==> final(self)@ == old(self)@,
            r matches Some(v) ==> v == old(self)@[0] && final(self)@ == old(self)@.subrange(
                1,
                old(self)@.len() as int,
            ),
            final(self).next_in() == old(self).next_in(),
            final(self).next_out() == old(self).next_out() + (if r is Some {
                1int
            } else {
                0int
            }),
            // a pop within the consumer's segment leaves the segments alone
            r is None || old(self).next_out() % 64 != 0 ==> final(self).used() == old(self).used()
                && final(self).spares() == old(self).spares(),
            // the first item of a segment is popped after the segment
            // before it has gone back: to the spare ones, if fewer than
            // `CACHE_LIMIT` are spare, else to the allocator
            r is Some && old(self).next_out() % 64 == 0 ==> final(self).used()
                == old(self).used().subrange(1, old(self).used().len() as int)
                && final(self).spares()
                == Self::spares_with(old(self).spares(), old(self).used()[0]),
            old(self).pop_indices(final(self), r is Some),
    {
        let ghost w = index_modulus();
        let ghost p = self.pushed@;
        let ghost q = self.popped@;
        let ghost first = self.first_block();
        let chead: usize = self.head;
        proof {
            lemma_same(q, self.tail_seen@, w);
            lemma_same(q, p, w);
            lemma_succ(q, w);
            lemma_slot_of_wrapped(q);
        }
        if chead == self.tail_cache {
            let cur_tail: usize = self.tail;
            self.tail_cache = cur_tail;
            self.tail_seen = Ghost(self.pushed@);
            if chead == cur_tail {
                proof {
                    old(self).lemma_tidy_kept(self, 0);
                    assert(self@ =~= old(self)@);
                }
                return None;
            }
        }
        let next_head: usize = chead.wrapping_add(1);
        let read_ind: usize = chead % SEG_SIZE;
        proof {
            old(self).lemma_tidy_kept(self, 0);
        }
        assert(read_ind == q % 64);
        assert(q % 64 != 0 ==> q / 64 == first);
        assert(q % 64 == 0 ==> q / 64 == first + 1 && (p - 1) / 64 >= q / 64);
        assert(forall|c: int| q <= c < p ==> self.slot(c) == old(self).slot(c));
        if read_ind == 0 {
            let ghost full = *self;
            assert(full.chain@.len() >= 2);
            self.drop_head_block();
            proof {
                lemma_cells_cut(full.segments@, full.chain@, first, q, p);
                lemma_cells_kept(full.segments@, self.segments@, self.chain@, first + 1, q, p);
            }
        }
        let ghost ready = *self;
        let ghost base = q / 64;
        let head_block: usize = self.head_block;
        assert(forall|c: int|
            q <= c < p ==> cell(ready.segments@, ready.chain@, base, c) == old(self).slot(c));
        assert(ready.chain@.len() == (p - 1) / 64 - base + 1);
        assert(ready.live(ready.chain@[0]));
        let rval = self.take_slot(head_block, read_ind);
        self.head = next_head;
        self.popped = Ghost(q + 1);
        proof {
            lemma_cells_written(
                ready.segments@,
                self.segments@,
                ready.chain@,
                base,
                q,
                None,
                q,
                p,
            );
            assert forall|j: int| 0 <= j < ready.spare@.len() implies self.live(
                #[trigger] ready.spare@[j],
            ) && self.seg(ready.spare@[j]) == ready.seg(ready.spare@[j]) by {
                assert(ready.live(ready.spare@[j]));
            }
            ready.lemma_linked_kept(self, ready.spare@);
            ready.lemma_tidy_kept(self, 0);
            assert(self.first_block() == base);
            assert(rval == cell(ready.segments@, ready.chain@, base, q));
            assert(old(self).slot(q) is Some);
            assert forall|c: int| q + 1 <= c < p implies (#[trigger] self.slot(c)) is Some by {
                assert(self.slot(c) == cell(ready.segments@, ready.chain@, base, c));
                assert(old(self).slot(c) is Some);
            }
            assert(rval == Some(old(self)@[0]));
            assert forall|i: int| 0 <= i < p - q - 1 implies self@[i] == old(self)@[i + 1] by {
                assert(self.slot(q + 1 + i) == cell(
                    ready.segments@,
                    ready.chain@,
                    base,
                    q + 1 + i,
                ));
            }
            assert(self@ =~= old(self)@.subrange(1, old(self)@.len() as int));
        }
        rval
    }

    /// Whether the segment store holds a segment at the address `a`.
    pub fn holds_segment(&self, a: usize) -> (r: bool)
        ensures
            r == self.has_segment(a),
    {
        if a == 0 || a > self.segments.len() {
            return false;
        }
        match &self.segments[a - 1] {
            Some(seg) => seg.data.len() == SEG_SIZE,
            None => false,
        }
    }

    /// The capacity that the queue was made with: 0, for none. The queue
    /// grows by segments as long as the indices have room.
    pub fn capacity(&self) -> (r: usize)
        ensures
            r == 0,
    {
        0
    }

    /// Creates an empty queue with both of its handles.
    pub fn new() -> (r: (SpscQueue<T>, BoundedProducer, BoundedConsumer))
        ensures
            r.0.wf(),
            r.0@ == Seq::<T>::empty(),
            r.0.producer_alive(),
            r.0.consumer_alive(),
            r.0.spare_segments() == 0,
            r.0.segments_in_use() == 1,
    {
        let mut segments: Vec<Option<Segment<T>>> = Vec::new();
        segments.push(Some(Segment::new()));
        let first_block: usize = 1;
        let q = SpscQueue {
            segments,
            vacant: Vec::new(),
            cache_stack: 0,
            cache_size: 0,
            head: 1,
            head_block: first_block,
            tail_cache: 1,
            prod_alive: true,
            tail: 1,
            tail_block: first_block,
            head_cache: 1,
            cons_alive: true,
            pushed: Ghost(1),
            popped: Ghost(1),
            head_seen: Ghost(1),
            tail_seen: Ghost(1),
            chain: Ghost(Seq::empty().push(1usize)),
            spare: Ghost(Seq::empty()),
        };
        proof {
            vstd::arithmetic::div_mod::lemma_small_mod(1, index_modulus() as nat);
            assert(q.seg(1usize).next == 0);
            assert forall|a: usize| #[trigger] q.live(a) implies q.chain@.contains(a) by {
                assert(q.chain@[0] == 1);
            }
            assert(q@ =~= Seq::<T>::empty());
        }
        (q, BoundedProducer { _private: () }, BoundedConsumer { _private: () })
    }
}

impl BoundedConsumer {
    /// Hands out a new producer handle if the last one was dropped.
    pub fn create_producer<T>(&self, q: &mut SpscQueue<T>) -> (r: Option<BoundedProducer>)
        requires
            old(q).wf(),
        ensures
            final(q).wf(),
            final(q)@ == old(q)@,
            final(q).producer_alive(),
            final(q).consumer_alive() == old(q).consumer_alive(),
            r is Some <==> !old(q).producer_alive(),
    {
        if q.prod_alive {
            return None;
        }
        q.prod_alive = true;
        proof {
            assert forall|c: int| q.popped@ <= c < q.pushed@ implies (#[trigger] q.slot(c)) is Some
                by {
                assert(q.slot(c) == old(q).slot(c));
            }
            old(q).lemma_tidy_kept(q, 0);
            assert(q@ =~= old(q)@);
        }
        Some(BoundedProducer { _private: () })
    }

    /// Whether a producer handle is out.
    pub fn is_producer_alive<T>(&self, q: &SpscQueue<T>) -> (r: bool)
        ensures
            r == q.producer_alive(),
    {
        q.prod_alive
    }

    /// Removes the oldest item, or returns `None` when the queue is empty.
    pub fn try_pop<T>(&self, q: &mut SpscQueue<T>) -> (r: Option<T>)
        requires
            old(q).wf(),
        ensures
            final(q).wf(),
            final(q).producer_alive() == old(q).producer_alive(),
            final(q).consumer_alive() == old(q).consumer_alive(),
            r == taken(old(q)@, Op::Pop),
            final(q)@ == fifo_after(old(q)@, Op::Pop),
            r is None <==> old(q)@.len() == 0,
            r is None ==> final(q)@ == old(q)@,
            r matches Some(v) ==> v == old(q)@[0] && final(q)@ == old(q)@.subrange(
                1,
                old(q)@.len() as int,
            ),
            final(q).next_in() == old(q).next_in(),
            final(q).next_out() == old(q).next_out() + (if r is Some {
                1int
            } else {
                0int
            }),
            r is None || old(q).next_out() % 64 != 0 ==> final(q).used() == old(q).used()
                && final(q).spares() == old(q).spares(),
            r is Some && old(q).next_out() % 64 == 0 ==> final(q).used() == old(q).used().subrange(
                1,
                old(q).used().len() as int,
            ) && final(q).spares() == SpscQueue::<T>::spares_with(
                old(q).spares(),
                old(q).used()[0],
            ),
            old(q).pop_indices(final(q), r is Some),
    {
        q.try_pop()
    }

    /// The capacity that the queue was made with: 0, for none.
    pub fn capacity<T>(&self, q: &SpscQueue<T>) -> (r: usize)
        ensures
            r == 0,
    {
        q.capacity()
    }

    /// Gives the handle up; the queue records that no consumer is left.
    pub fn disconnect<T>(self, q: &mut SpscQueue<T>)
        requires
            old(q).wf(),
        ensures
            final(q).wf(),
            final(q)@ == old(q)@,
            !final(q).consumer_alive(),
            final(q).producer_alive() == old(q).producer_alive(),
    {
        q.cons_alive = false;
        proof {
            assert forall|c: int| q.popped@ <= c < q.pushed@ implies (#[trigger] q.slot(c)) is Some
                by {
                assert(q.slot(c) == old(q).slot(c));
            }
            old(q).lemma_tidy_kept(q, 0);
            assert(q@ =~= old(q)@);
        }
    }
}

impl BoundedProducer {
    /// Hands out a new consumer handle if the last one was dropped.
    pub fn create_consumer<T>(&self, q: &mut SpscQueue<T>) -> (r: Option<BoundedConsumer>)
        requires
            old(q).wf(),
        ensures
            final(q).wf(),
            final(q)@ == old(q)@,
            final(q).consumer_alive(),
            final(q).producer_alive() == old(q).producer_alive(),
            r is Some <==> !old(q).consumer_alive(),
    {
        if q.cons_alive {
            return None;
        }
        q.cons_alive = true;
        proof {
            assert forall|c: int| q.popped@ <= c < q.pushed@ implies (#[trigger] q.slot(c)) is Some
                by {
                assert(q.slot(c) == old(q).slot(c));
            }
            old(q).lemma_tidy_kept(q, 0);
            assert(q@ =~= old(q)@);
        }
        Some(BoundedConsumer { _private: () })
    }

    /// Whether a consumer handle is out.
    pub fn is_consumer_alive<T>(&self, q: &SpscQueue<T>) -> (r: bool)
        ensures
            r == q.consumer_alive(),
    {
        q.cons_alive
    }

    /// Appends `val`. Hands it back when no consumer is left or the queue
    /// is full.
    pub fn try_push<T>(&self, q: &mut SpscQueue<T>, val: T) -> (r: Result<(), T>)
        requires
            old(q).wf(),
        ensures
            final(q).wf(),
            final(q).producer_alive() == old(q).producer_alive(),
            final(q).consumer_alive() == old(q).consumer_alive(),
            r is Ok <==> old(q).consumer_alive() && old(q)@.len() < usize::MAX,
            r is Ok ==> final(q)@ == old(q)@.push(val) && final(q)@ == fifo_after(
                old(q)@,
                Op::Push(val),
            ),
            r matches Err(v) ==> v == val && final(q)@ == old(q)@,
            final(q).next_out() == old(q).next_out(),
            final(q).next_in() == old(q).next_in() + (if r is Ok {
                1int
            } else {
                0int
            }),
            r is Err || old(q).next_in() % 64 != 0 ==> final(q).used() == old(q).used()
                && final(q).spares() == old(q).spares(),
            r is Ok && old(q).next_in() % 64 == 0 ==> final(q).used().len() == old(q).used().len()
                + 1 && final(q).used().drop_last() == old(q).used() && final(q).spares()
                == SpscQueue::<T>::spares_less_one(old(q).spares()) && (if old(q).spares().len()
                > 0 {
                final(q).used().last() == old(q).spares()[0]
            } else {
                !old(q).has_segment(final(q).used().last())
            }),
            old(q).consumer_alive() ==> old(q).push_indices(final(q), r is Ok),
            !old(q).consumer_alive() ==> final(q).head_index() == old(q).head_index()
                && final(q).tail_index() == old(q).tail_index() && final(q).head_cached()
                == old(q).head_cached() && final(q).tail_cached() == old(q).tail_cached(),
    {
        if !self.is_consumer_alive(q) {
            return Err(val);
        }
        let ctor = move || -> (made: T)
            ensures
                made == val,
            { val };
        match q.try_construct(ctor) {
            Ok(_) => {
                proof {
                    assert(q@ =~= old(q)@.push(val));
                }
                Ok(())
            },
            Err(f) => Err(f()),
        }
    }

    /// Builds a value with `ctor` and appends it. Hands `ctor` back uncalled
    /// when no consumer is left or the queue is full.
    pub fn try_construct<T, F: FnOnce() -> T>(&self, q: &mut SpscQueue<T>, ctor: F) -> (r: Result<
        (),
        F,
    >)
        requires
            old(q).wf(),
            ctor.requires(()),
        ensures
            final(q).wf(),
            final(q).producer_alive() == old(q).producer_alive(),
            final(q).consumer_alive() == old(q).consumer_alive(),
            r is Ok <==> old(q).consumer_alive() && old(q)@.len() < usize::MAX,
            r is Ok ==> final(q)@.len() == old(q)@.len() + 1 && final(q)@.drop_last() == old(q)@
                && ctor.ensures((), final(q)@.last()),
            r matches Err(f) ==> f == ctor && final(q)@ == old(q)@,
            final(q).next_out() == old(q).next_out(),
            final(q).next_in() == old(q).next_in() + (if r is Ok {
                1int
            } else {
                0int
            }),
            r is Err || old(q).next_in() % 64 != 0 ==> final(q).used() == old(q).used()
                && final(q).spares() == old(q).spares(),
            r is Ok && old(q).next_in() % 64 == 0 ==> final(q).used().len() == old(q).used().len()
                + 1 && final(q).used().drop_last() == old(q).used() && final(q).spares()
                == SpscQueue::<T>::spares_less_one(old(q).spares()) && (if old(q).spares().len()
                > 0 {
                final(q).used().last() == old(q).spares()[0]
            } else {
                !old(q).has_segment(final(q).used().last())
            }),
            old(q).consumer_alive() ==> old(q).push_indices(final(q), r is Ok),
            !old(q).consumer_alive() ==> final(q).head_index() == old(q).head_index()
                && final(q).tail_index() == old(q).tail_index() && final(q).head_cached()
                == old(q).head_cached() && final(q).tail_cached() == old(q).tail_cached(),
    {
        if !self.is_consumer_alive(q) {
            return Err(ctor);
        }
        q.try_construct(ctor)
    }

    /// The capacity that the queue was made with: 0, for none.
    pub fn capacity<T>(&self, q: &SpscQueue<T>) -> (r: usize)
        ensures
            r == 0,
    {
        q.capacity()
    }

    /// Gives the handle up; the queue records that no producer is left.
    pub fn disconnect<T>(self, q: &mut SpscQueue<T>)
        requires
            old(q).wf(),
        ensures
            final(q).wf(),
            final(q)@ == old(q)@,
            !final(q).producer_alive(),
            final(q).consumer_alive() == old(q).consumer_alive(),
    {
        q.prod_alive = false;
        proof {
            assert forall|c: int| q.popped@ <= c < q.pushed@ implies (#[trigger] q.slot(c)) is Some
                by {
                assert(q.slot(c) == old(q).slot(c));
            }
            old(q).lemma_tidy_kept(q, 0);
            assert(q@ =~= old(q)@);
        }
    }
}

} // verus!
