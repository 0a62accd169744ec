//! Bags of garbage: addresses that were unlinked and wait to be freed once
//! the epoch has moved on far enough.
//!
//! A participant keeps three bags by age and a queue of items whose
//! collection was put off for want of budget. A participant that leaves, or
//! that may not collect, donates its bags to one of three global bags.

use crate::mem::epoch::heap::{Heap, Holder};
use std::collections::VecDeque;
use vstd::math::min as spec_min;
use vstd::prelude::*;

verus! {

/// One item of garbage: the address of an unlinked cell.
#[derive(Clone, Copy, Debug)]
pub struct Item {
    /// The address to free.
    pub ptr: usize,
}

/// No address occurs twice in `s`.
pub open spec fn distinct(s: Seq<usize>) -> bool {
    forall|i: int, j: int| 0 <= i < j < s.len() ==> s[i] != s[j]
}

/// No address occurs in both `a` and `b`.
pub open spec fn disjoint(a: Seq<usize>, b: Seq<usize>) -> bool {
    forall|i: int, j: int| 0 <= i < a.len() && 0 <= j < b.len() ==> a[i] != b[j]
}

/// Every address in `s` is a retired cell of `heap` that `holder` holds and
/// that was retired at epoch `bound` or earlier.
pub open spec fn held(heap: &Heap, s: Seq<usize>, holder: Holder, bound: int) -> bool {
    forall|i: int|
        0 <= i < s.len() ==> heap.is_retired(#[trigger] s[i]) && heap.holder(s[i]) == holder
            && heap.stamp(s[i]) <= bound
}

/// `after` is `before` with the cells named in `s` freed and every other
/// cell as it was.
pub open spec fn freed(before: &Heap, after: &Heap, s: Seq<usize>) -> bool {
    forall|a: usize| #[trigger] freed_at(before, after, s, a)
}

/// What `freed` says of the one address `a`.
pub open spec fn freed_at(before: &Heap, after: &Heap, s: Seq<usize>, a: usize) -> bool {
    if s.contains(a) {
        !after.allocated(a)
    } else {
        before.same_cell(after, a)
    }
}

/// Freeing the cells of `s` and then those of `t` frees those of `s + t`.
pub proof fn lemma_freed_then(h0: &Heap, h1: &Heap, h2: &Heap, s: Seq<usize>, t: Seq<usize>)
    requires
        freed(h0, h1, s),
        freed(h1, h2, t),
        disjoint(s, t),
    ensures
        freed(h0, h2, s + t),
{
    assert forall|a: usize| #[trigger] freed_at(h0, h2, s + t, a) by {
        assert(freed_at(h0, h1, s, a));
        assert(freed_at(h1, h2, t, a));
        if s.contains(a) {
            let i = choose|i: int| 0 <= i < s.len() && s[i] == a;
            assert((s + t)[i] == a);
            if t.contains(a) {
                let j = choose|j: int| 0 <= j < t.len() && t[j] == a;
                assert(s[i] != t[j]);
            }
            assert(h1.same_cell(h2, a));
        } else if t.contains(a) {
            let j = choose|j: int| 0 <= j < t.len() && t[j] == a;
            assert((s + t)[s.len() + j] == a);
        } else {
            if (s + t).contains(a) {
                let k = choose|k: int| 0 <= k < (s + t).len() && (s + t)[k] == a;
                if k < s.len() {
                    assert(s[k] == a);
                } else {
                    assert(t[k - s.len()] == a);
                }
            }
            assert(h0.same_cell(h1, a));
            assert(h1.same_cell(h2, a));
        }
    }
}

/// Cells that a step did not free, and that were held before it, are held
/// after it.
pub proof fn lemma_held_after(
    before: &Heap,
    after: &Heap,
    gone: Seq<usize>,
    s: Seq<usize>,
    holder: Holder,
    bound: int,
)
    requires
        freed(before, after, gone),
        held(before, s, holder, bound),
        disjoint(gone, s),
    ensures
        held(after, s, holder, bound),
{
    assert forall|i: int| 0 <= i < s.len() implies after.is_retired(#[trigger] s[i])
        && after.holder(s[i]) == holder && after.stamp(s[i]) <= bound by {
        if gone.contains(s[i]) {
            let k = choose|k: int| 0 <= k < gone.len() && gone[k] == s[i];
            assert(gone[k] != s[i]);
        }
        assert(freed_at(before, after, gone, s[i]));
    }
}

/// Freeing cells that one holder held, none retired after `bound`, is a
/// reclamation from that holder.
pub proof fn lemma_freed_is_reclaimed(
    before: &Heap,
    after: &Heap,
    gone: Seq<usize>,
    holder: Holder,
    bound: int,
)
    requires
        freed(before, after, gone),
        held(before, gone, holder, bound),
    ensures
        before.reclaimed_from(after, holder, bound),
{
    assert forall|a: usize| #[trigger]
        before.same_cell(after, a) || (before.is_retired(a) && before.holder(a) == holder
            && before.stamp(a) <= bound && !after.allocated(a)) by {
        assert(freed_at(before, after, gone, a));
        if gone.contains(a) {
            let k = choose|k: int| 0 <= k < gone.len() && gone[k] == a;
            assert(before.is_retired(gone[k]));
        }
    }
}

/// A single bag of garbage.
#[derive(Debug)]
pub struct Bag {
    items: Vec<Item>,
}

impl Bag {
    /// The addresses in the bag, in the order in which they came.
    pub closed spec fn view(&self) -> Seq<usize> {
        Seq::new(self.items@.len(), |i: int| self.items@[i].ptr)
    }

    /// An empty bag.
    pub fn new() -> (b: Bag)
        ensures
            b@ == Seq::<usize>::empty(),
    {
        let b = Bag { items: Vec::new() };
        assert(b@ =~= Seq::<usize>::empty());
        b
    }

    /// Adds the address `elem`.
    pub fn insert(&mut self, elem: usize)
        ensures
            final(self)@ == old(self)@.push(elem),
    {
        self.items.push(Item { ptr: elem });
        assert(self@ =~= old(self)@.push(elem));
    }

    /// The number of items in the bag.
    pub fn len(&self) -> (n: usize)
        ensures
            n == self@.len(),
    {
        self.items.len()
    }

    /// Frees every item of the bag and leaves the bag empty.
    pub fn collect(&mut self, heap: &mut Heap)
        requires
            old(heap).wf(),
            distinct(old(self)@),
            forall|i: int| 0 <= i < old(self)@.len() ==> old(heap).allocated(old(self)@[i]),
        ensures
            final(heap).wf(),
            final(self)@ == Seq::<usize>::empty(),
            freed(old(heap), final(heap), old(self)@),
    {
        let n: usize = self.items.len();
        let mut i: usize = 0;
        while i < n
            invariant
                i <= n,
                n == self.items@.len(),
                self.items == old(self).items,
                heap.wf(),
                distinct(self@),
                forall|k: int| 0 <= k < self@.len() ==> old(heap).allocated(self@[k]),
                freed(old(heap), heap, self@.subrange(0, i as int)),
            decreases n - i,
        {
            let ptr: usize = self.items[i].ptr;
            let ghost done = self@.subrange(0, i as int);
            let ghost mid = *heap;
            proof {
                assert(ptr == self@[i as int]);
                if done.contains(ptr) {
                    let k = choose|k: int| 0 <= k < done.len() && done[k] == ptr;
                    assert(self@[k] == self@[i as int]);
                }
                assert(freed_at(old(heap), heap, done, ptr));
            }
            heap.free(ptr);
            proof {
                let one = seq![ptr];
                assert(freed(&mid, heap, one)) by {
                    assert forall|a: usize| #[trigger] freed_at(&mid, heap, one, a) by {
                        if a == ptr {
                            assert(one[0] == a);
                        } else if one.contains(a) {
                            let k = choose|k: int| 0 <= k < one.len() && one[k] == a;
                        }
                    }
                }
                assert(disjoint(done, one)) by {
                    assert forall|x: int, y: int|
                        0 <= x < done.len() && 0 <= y < one.len() implies done[x] != one[y] by {
                        assert(self@[x] != self@[i as int]);
                    }
                }
                lemma_freed_then(old(heap), &mid, heap, done, one);
                assert(done + one =~= self@.subrange(0, i + 1));
            }
            i = i + 1;
        }
        proof {
            assert(self@.subrange(0, n as int) =~= old(self)@);
        }
        self.items.truncate(0);
        assert(self@ =~= Seq::<usize>::empty());
    }
}

/// Two sequences with the same members name the same cells to free.
pub proof fn lemma_freed_same_members(before: &Heap, after: &Heap, s: Seq<usize>, t: Seq<usize>)
    requires
        freed(before, after, s),
        forall|a: usize| s.contains(a) <==> t.contains(a),
    ensures
        freed(before, after, t),
{
    assert forall|a: usize| #[trigger] freed_at(before, after, t, a) by {
        assert(freed_at(before, after, s, a));
    }
}

/// Cells held by different holders are different cells.
pub proof fn lemma_holders_apart(
    heap: &Heap,
    s: Seq<usize>,
    t: Seq<usize>,
    hs: Holder,
    ht: Holder,
    bs: int,
    bt: int,
)
    requires
        held(heap, s, hs, bs),
        held(heap, t, ht, bt),
        hs != ht,
    ensures
        disjoint(s, t),
{
    assert forall|i: int, j: int| 0 <= i < s.len() && 0 <= j < t.len() implies s[i] != t[j] by {
        assert(heap.holder(s[i]) == hs);
        assert(heap.holder(t[j]) == ht);
    }
}

/// Items whose collection was put off, oldest first: a queue that is
/// filled at the back, a bag at a time, and freed from the front, an item
/// at a time. Where one bag ends and the next begins makes no difference
/// to what is freed, so the queue holds the items, not the bags.
#[derive(Debug)]
pub struct PendingBags {
    waiting: VecDeque<Item>,
    size: usize,
}

impl PendingBags {
    /// The addresses that wait, in the order in which they will be freed.
    pub closed spec fn view(&self) -> Seq<usize> {
        Seq::new(self.waiting@.len(), |i: int| self.waiting@[i].ptr)
    }

    /// The recorded size agrees with what waits.
    pub closed spec fn wf(&self) -> bool {
        self.size == self.waiting@.len()
    }

    /// Nothing pending.
    pub fn new() -> (p: PendingBags)
        ensures
            p.wf(),
            p@ == Seq::<usize>::empty(),
    {
        let p = PendingBags { size: 0, waiting: VecDeque::new() };
        assert(p@ =~= Seq::<usize>::empty());
        p
    }

    /// Whether anything waits.
    pub fn has_pending(&self) -> (r: bool)
        requires
            self.wf(),
        ensures
            r == (self@.len() > 0),
    {
        self.size > 0
    }

    /// The number of items that wait.
    pub fn size(&self) -> (n: usize)
        requires
            self.wf(),
        ensures
            n == self@.len(),
    {
        self.size
    }

    /// Queues the items of `to_add` behind those that wait already.
    pub fn add_bag(&mut self, to_add: Bag)
        requires
            old(self).wf(),
        ensures
            final(self).wf(),
            final(self)@ == old(self)@ + to_add@,
    {
        let n: usize = to_add.items.len();
        let mut i: usize = 0;
        while i < n
            invariant
                i <= n,
                n == to_add.items@.len(),
                self.waiting@ =~= old(self).waiting@ + to_add.items@.subrange(0, i as int),
            decreases n - i,
        {
            let item: Item = to_add.items[i];
            self.waiting.push_back(item);
            i = i + 1;
        }
        self.size = self.waiting.len();
        assert(to_add.items@.subrange(0, n as int) =~= to_add.items@);
        assert(self@ =~= old(self)@ + to_add@);
    }

    /// Frees items from the front, at most `budget` of them, and returns
    /// what is left of the budget.
    pub fn collect_pending(&mut self, budget: usize, heap: &mut Heap) -> (left: usize)
        requires
            old(self).wf(),
            old(heap).wf(),
            distinct(old(self)@),
            forall|i: int| 0 <= i < old(self)@.len() ==> old(heap).allocated(old(self)@[i]),
        ensures
            final(self).wf(),
            final(heap).wf(),
            left == budget - spec_min(budget as int, old(self)@.len() as int),
            final(self)@ == old(self)@.subrange(budget - left, old(self)@.len() as int),
            freed(old(heap), final(heap), old(self)@.subrange(0, budget - left)),
    {
        let n: usize = self.waiting.len();
        let to_free: usize = if budget < n {
            budget
        } else {
            n
        };
        let mut i: usize = 0;
        while i < to_free
            invariant
                i <= to_free <= n,
                n == old(self).waiting@.len(),
                self.waiting@ =~= old(self).waiting@.subrange(i as int, n as int),
                heap.wf(),
                distinct(old(self)@),
                forall|k: int| 0 <= k < old(self)@.len() ==> old(heap).allocated(old(self)@[k]),
                freed(old(heap), heap, old(self)@.subrange(0, i as int)),
            decreases to_free - i,
        {
            let ghost all = old(self)@;
            let ghost done = all.subrange(0, i as int);
            let ghost mid = *heap;
            let ghost front = self.waiting@;
            assert(front.len() > 0);
            let item: Item = self.waiting.pop_front().unwrap();
            let ptr: usize = item.ptr;
            proof {
                assert(front[0] == old(self).waiting@[i as int]);
                assert(ptr == all[i as int]);
                if done.contains(ptr) {
                    let k = choose|k: int| 0 <= k < done.len() && done[k] == ptr;
                    assert(all[k] == all[i as int]);
                }
                assert(freed_at(old(heap), heap, done, ptr));
            }
            heap.free(ptr);
            proof {
                let one = seq![ptr];
                assert(freed(&mid, heap, one)) by {
                    assert forall|a: usize| #[trigger] freed_at(&mid, heap, one, a) by {
                        if a == ptr {
                            assert(one[0] == a);
                        } else if one.contains(a) {
                            let k = choose|k: int| 0 <= k < one.len() && one[k] == a;
                        }
                    }
                }
                assert(disjoint(done, one)) by {
                    assert forall|x: int, y: int|
                        0 <= x < done.len() && 0 <= y < one.len() implies done[x] != one[y] by {
                        assert(all[x] != all[i as int]);
                    }
                }
                lemma_freed_then(old(heap), &mid, heap, done, one);
                assert(done + one =~= all.subrange(0, i + 1));
                assert(self.waiting@ =~= old(self).waiting@.subrange(i + 1, n as int)) by {
                    assert forall|k: int| 0 <= k < self.waiting@.len() implies self.waiting@[k]
                        == old(self).waiting@[i + 1 + k] by {
                        assert(front[k + 1] == old(self).waiting@[i + k + 1]);
                    }
                }
            }
            i = i + 1;
        }
        self.size = self.waiting.len();
        assert(self@ =~= old(self)@.subrange(to_free as int, old(self)@.len() as int));
        budget - to_free
    }

    /// Hands what waits over to the global bags. Nothing is done: what
    /// waits stays with its thread.
    pub fn evict_to_global(&mut self)
        ensures
            *final(self) == *old(self),
    {
    }
}

/// A participant's garbage: three bags by age, and the queue of items whose
/// collection was put off.
#[derive(Debug)]
pub struct Local {
    /// Garbage added at least one epoch behind the current local epoch.
    pub old: Bag,
    /// Garbage added in the current local epoch or earlier.
    pub cur: Bag,
    /// Garbage added in the current global epoch.
    pub new: Bag,
    /// Garbage whose collection was put off.
    pub pending: PendingBags,
}

impl Local {
    /// The addresses whose collection was put off.
    pub open spec fn pending(&self) -> Seq<usize> {
        self.pending@
    }

    /// The addresses that may be freed now: those put off, then the old bag.
    pub open spec fn stale(&self) -> Seq<usize> {
        self.pending() + self.old@
    }

    /// No address is held twice, in one bag or in two.
    pub closed spec fn separate(&self) -> bool {
        &&& self.pending.wf()
        &&& distinct(self.old@)
        &&& distinct(self.cur@)
        &&& distinct(self.new@)
        &&& distinct(self.pending@)
        &&& disjoint(self.old@, self.cur@)
        &&& disjoint(self.old@, self.new@)
        &&& disjoint(self.cur@, self.new@)
        &&& disjoint(self.pending@, self.old@)
        &&& disjoint(self.pending@, self.cur@)
        &&& disjoint(self.pending@, self.new@)
    }

    /// Every address in the bags is a retired cell of `heap` that `holder`
    /// holds, and each bag is as old as its name says when the local epoch
    /// is `epoch`.
    pub closed spec fn held_in(&self, heap: &Heap, holder: Holder, epoch: int) -> bool {
        &&& held(heap, self.old@, holder, epoch - 1)
        &&& held(heap, self.pending@, holder, epoch - 1)
        &&& held(heap, self.cur@, holder, epoch)
        &&& held(heap, self.new@, holder, epoch + 1)
    }

    /// Whether no bag holds anything.
    pub open spec fn is_empty(&self) -> bool {
        &&& self.old@.len() == 0
        &&& self.cur@.len() == 0
        &&& self.new@.len() == 0
        &&& self.pending().len() == 0
    }

    /// Whether `a` is in one of the bags.
    pub open spec fn holds(&self, a: usize) -> bool {
        ||| self.old@.contains(a)
        ||| self.cur@.contains(a)
        ||| self.new@.contains(a)
        ||| self.pending().contains(a)
    }

    /// What may be freed now was retired before the local epoch.
    pub proof fn lemma_stale_held(&self, heap: &Heap, holder: Holder, epoch: int)
        requires
            self.held_in(heap, holder, epoch),
        ensures
            held(heap, self.stale(), holder, epoch - 1),
    {
        let stale = self.stale();
        let m = self.pending@.len();
        assert forall|i: int| 0 <= i < stale.len() implies heap.is_retired(#[trigger] stale[i])
            && heap.holder(stale[i]) == holder && heap.stamp(stale[i]) <= epoch - 1 by {
            if i < m {
                assert(stale[i] == self.pending@[i]);
            } else {
                assert(stale[i] == self.old@[i - m]);
            }
        }
    }

    /// Bags that are as old as their names say at one local epoch are so at
    /// every later one.
    pub proof fn lemma_held_later(&self, heap: &Heap, holder: Holder, e0: int, e1: int)
        requires
            self.held_in(heap, holder, e0),
            e0 <= e1,
        ensures
            self.held_in(heap, holder, e1),
    {
    }

    /// Bags stay held across a step that changes no retired cell of their
    /// holder.
    pub proof fn lemma_held_framed(&self, h0: &Heap, h1: &Heap, holder: Holder, epoch: int)
        requires
            self.held_in(h0, holder, epoch),
            forall|a: usize|
                h0.is_retired(a) && h0.holder(a) == holder ==> #[trigger] h0.same_cell(h1, a),
        ensures
            self.held_in(h1, holder, epoch),
            forall|bound: int| #[trigger]
                held(h0, self.new@, holder, bound) ==> held(h1, self.new@, holder, bound),
    {
        assert forall|bound: int| #[trigger] held(h0, self.new@, holder, bound) implies held(
            h1,
            self.new@,
            holder,
            bound,
        ) by {
            assert forall|i: int| 0 <= i < self.new@.len() implies h1.is_retired(
                #[trigger] self.new@[i],
            ) && h1.holder(self.new@[i]) == holder && h1.stamp(self.new@[i]) <= bound by {
                assert(h0.same_cell(h1, self.new@[i]));
            }
        }
        assert forall|i: int| 0 <= i < self.old@.len() implies h1.is_retired(
            #[trigger] self.old@[i],
        ) && h1.holder(self.old@[i]) == holder && h1.stamp(self.old@[i]) <= epoch - 1 by {
            assert(h0.same_cell(h1, self.old@[i]));
        }
        assert forall|i: int| 0 <= i < self.pending@.len() implies h1.is_retired(
            #[trigger] self.pending@[i],
        ) && h1.holder(self.pending@[i]) == holder && h1.stamp(self.pending@[i]) <= epoch - 1 by {
            assert(h0.same_cell(h1, self.pending@[i]));
        }
        assert forall|i: int| 0 <= i < self.cur@.len() implies h1.is_retired(
            #[trigger] self.cur@[i],
        ) && h1.holder(self.cur@[i]) == holder && h1.stamp(self.cur@[i]) <= epoch by {
            assert(h0.same_cell(h1, self.cur@[i]));
        }
        assert forall|i: int| 0 <= i < self.new@.len() implies h1.is_retired(
            #[trigger] self.new@[i],
        ) && h1.holder(self.new@[i]) == holder && h1.stamp(self.new@[i]) <= epoch + 1 by {
            assert(h0.same_cell(h1, self.new@[i]));
        }
    }

    /// What `separate` says of each bag and each pair of bags.
    pub proof fn lemma_separate_parts(&self)
        requires
            self.separate(),
        ensures
            self.pending.wf(),
            distinct(self.old@),
            distinct(self.cur@),
            distinct(self.new@),
            distinct(self.pending()),
            disjoint(self.old@, self.cur@),
            disjoint(self.old@, self.new@),
            disjoint(self.cur@, self.new@),
            disjoint(self.pending(), self.old@),
            disjoint(self.pending(), self.cur@),
            disjoint(self.pending(), self.new@),
    {
    }

    /// What `held_in` says of each bag.
    pub proof fn lemma_held_parts(&self, heap: &Heap, holder: Holder, epoch: int)
        requires
            self.held_in(heap, holder, epoch),
        ensures
            held(heap, self.old@, holder, epoch - 1),
            held(heap, self.pending(), holder, epoch - 1),
            held(heap, self.cur@, holder, epoch),
            held(heap, self.new@, holder, epoch + 1),
    {
    }

    /// A cell in one of the held bags is a retired cell of the holder.
    pub proof fn lemma_holds_held(&self, heap: &Heap, holder: Holder, epoch: int, a: usize)
        requires
            self.held_in(heap, holder, epoch),
            self.holds(a),
        ensures
            heap.is_retired(a),
            heap.holder(a) == holder,
    {
        if self.old@.contains(a) {
            let i = choose|i: int| 0 <= i < self.old@.len() && self.old@[i] == a;
            assert(heap.is_retired(self.old@[i]));
        } else if self.cur@.contains(a) {
            let i = choose|i: int| 0 <= i < self.cur@.len() && self.cur@[i] == a;
            assert(heap.is_retired(self.cur@[i]));
        } else if self.new@.contains(a) {
            let i = choose|i: int| 0 <= i < self.new@.len() && self.new@[i] == a;
            assert(heap.is_retired(self.new@[i]));
        } else {
            let i = choose|i: int| 0 <= i < self.pending@.len() && self.pending@[i] == a;
            assert(heap.is_retired(self.pending@[i]));
        }
    }

    /// No address is in a bag twice, nor in two bags.
    pub proof fn lemma_no_address_twice(&self)
        requires
            self.separate(),
        ensures
            (self.pending() + self.old@ + self.cur@ + self.new@).no_duplicates(),
    {
        let all = self.pending() + self.old@ + self.cur@ + self.new@;
        let a = self.pending@.len() as int;
        let b = a + self.old@.len();
        let c = b + self.cur@.len();
        assert forall|i: int, j: int| 0 <= i < all.len() && 0 <= j < all.len() && i != j implies
            all[i] != all[j] by {
            let (x, y) = if i < j {
                (i, j)
            } else {
                (j, i)
            };
            if y < a {
                assert(self.pending@[x] != self.pending@[y]);
            } else if y < b {
                if x < a {
                    assert(self.pending@[x] != self.old@[y - a]);
                } else {
                    assert(self.old@[x - a] != self.old@[y - a]);
                }
            } else if y < c {
                if x < a {
                    assert(self.pending@[x] != self.cur@[y - b]);
                } else if x < b {
                    assert(self.old@[x - a] != self.cur@[y - b]);
                } else {
                    assert(self.cur@[x - b] != self.cur@[y - b]);
                }
            } else {
                if x < a {
                    assert(self.pending@[x] != self.new@[y - c]);
                } else if x < b {
                    assert(self.old@[x - a] != self.new@[y - c]);
                } else if x < c {
                    assert(self.cur@[x - b] != self.new@[y - c]);
                } else {
                    assert(self.new@[x - c] != self.new@[y - c]);
                }
            }
        }
    }

    /// Empty bags are separate, and held whatever the heap and the holder.
    pub proof fn lemma_empty_held(&self, heap: &Heap, holder: Holder, epoch: int)
        requires
            self.is_empty(),
            self.pending.wf(),
        ensures
            self.separate(),
            self.held_in(heap, holder, epoch),
    {
    }

    /// Empty bags.
    pub fn new() -> (l: Local)
        ensures
            l.is_empty(),
            l.pending.wf(),
    {
        Local { old: Bag::new(), cur: Bag::new(), new: Bag::new(), pending: PendingBags::new() }
    }

    /// Adds the address `elem` to the newest bag.
    pub fn insert(&mut self, elem: usize)
        ensures
            final(self).new@ == old(self).new@.push(elem),
            final(self).old == old(self).old,
            final(self).cur == old(self).cur,
            final(self).pending == old(self).pending,
    {
        self.new.insert(elem)
    }

    /// What `insert` keeps: the bags stay separate and held when the new
    /// address was a live cell that has just been retired for `holder`.
    pub proof fn lemma_insert_keeps(
        before: &Local,
        after: &Local,
        h0: &Heap,
        h1: &Heap,
        elem: usize,
        holder: Holder,
        epoch: int,
    )
        requires
            before.separate(),
            before.held_in(h0, holder, epoch),
            h0.is_live(elem),
            h1.is_retired(elem),
            h1.holder(elem) == holder,
            h1.stamp(elem) <= epoch + 1,
            forall|b: usize| b != elem ==> h0.same_cell(h1, b),
            after.new@ == before.new@.push(elem),
            after.old@ == before.old@,
            after.cur@ == before.cur@,
            after.pending == before.pending,
        ensures
            after.separate(),
            after.held_in(h1, holder, epoch),
    {
        assert forall|a: usize|
            h0.is_retired(a) && h0.holder(a) == holder implies #[trigger] h0.same_cell(h1, a) by {}
        before.lemma_held_framed(h0, h1, holder, epoch);
        assert(held(h1, after.new@, holder, epoch + 1)) by {
            assert forall|i: int| 0 <= i < after.new@.len() implies h1.is_retired(
                #[trigger] after.new@[i],
            ) && h1.holder(after.new@[i]) == holder && h1.stamp(after.new@[i]) <= epoch + 1 by {
                if i < before.new@.len() {
                    assert(after.new@[i] == before.new@[i]);
                    assert(h0.is_retired(before.new@[i]));
                }
            }
        }
        assert forall|i: int| 0 <= i < before.old@.len() implies before.old@[i] != elem by {
            assert(h0.is_retired(before.old@[i]));
        }
        assert forall|i: int| 0 <= i < before.cur@.len() implies before.cur@[i] != elem by {
            assert(h0.is_retired(before.cur@[i]));
        }
        assert forall|i: int| 0 <= i < before.new@.len() implies before.new@[i] != elem by {
            assert(h0.is_retired(before.new@[i]));
        }
        assert forall|i: int| 0 <= i < before.pending@.len() implies before.pending@[i]
            != elem by {
            assert(h0.is_retired(before.pending@[i]));
        }
    }

    /// Collects one epoch of garbage and rotates the bags: what was current
    /// becomes old, what was new becomes current. The old bag is freed with
    /// what was put off if `budget` covers both; otherwise it joins the
    /// queue of what was put off, and `budget` items are freed from the
    /// front of that queue. Returns what is left of the budget.
    pub fn collect(&mut self, budget: usize, heap: &mut Heap) -> (left: usize)
        requires
            old(self).separate(),
            old(heap).wf(),
            forall|i: int|
                0 <= i < old(self).stale().len() ==> old(heap).allocated(old(self).stale()[i]),
        ensures
            final(self).separate(),
            final(heap).wf(),
            left == budget - spec_min(budget as int, old(self).stale().len() as int),
            freed(old(heap), final(heap), old(self).stale().subrange(0, budget - left)),
            final(self).pending() == old(self).stale().subrange(
                budget - left,
                old(self).stale().len() as int,
            ),
            final(self).old@ == old(self).cur@,
            final(self).cur@ == old(self).new@,
            final(self).new@ == Seq::<usize>::empty(),
    {
        let ghost stale = self.stale();
        let ghost n = stale.len() as int;
        let mut budget = budget;
        let old_len: usize = self.old.len();
        let waiting: usize = self.pending.size();
        assert forall|i: int| 0 <= i < self.old@.len() implies heap.allocated(self.old@[i]) by {
            assert(stale[self.pending@.len() + i] == self.old@[i]);
        }
        assert forall|i: int| 0 <= i < self.pending@.len() implies heap.allocated(
            self.pending@[i],
        ) by {
            assert(stale[i] == self.pending@[i]);
        }
        if budget >= old_len && budget - old_len >= waiting {
            budget = budget - old_len;
            self.old.collect(heap);
            let ghost mid = *heap;
            proof {
                assert forall|i: int| 0 <= i < self.pending@.len() implies heap.allocated(
                    self.pending@[i],
                ) by {
                    let a = self.pending@[i];
                    if old(self).old@.contains(a) {
                        let k = choose|k: int| 0 <= k < old(self).old@.len() && old(self).old@[k]
                            == a;
                        assert(old(self).pending@[i] != old(self).old@[k]);
                    }
                    assert(freed_at(old(heap), heap, old(self).old@, a));
                }
            }
            core::mem::swap(&mut self.old, &mut self.cur);
            core::mem::swap(&mut self.cur, &mut self.new);
            budget = self.pending.collect_pending(budget, heap);
            proof {
                let gone_old = old(self).old@;
                let gone_pending = old(self).pending@;
                assert(gone_pending.subrange(0, gone_pending.len() as int) =~= gone_pending);
                assert(disjoint(gone_old, gone_pending));
                lemma_freed_then(old(heap), &mid, heap, gone_old, gone_pending);
                assert forall|a: usize| (gone_old + gone_pending).contains(a) <==> stale.contains(
                    a,
                ) by {
                    if (gone_old + gone_pending).contains(a) {
                        let k = choose|k: int|
                            0 <= k < (gone_old + gone_pending).len() && (gone_old
                                + gone_pending)[k] == a;
                        if k < gone_old.len() {
                            assert(stale[gone_pending.len() + k] == a);
                        } else {
                            assert(stale[k - gone_old.len()] == a);
                        }
                    }
                    if stale.contains(a) {
                        let k = choose|k: int| 0 <= k < stale.len() && stale[k] == a;
                        if k < gone_pending.len() {
                            assert((gone_old + gone_pending)[gone_old.len() + k] == a);
                        } else {
                            assert((gone_old + gone_pending)[k - gone_pending.len()] == a);
                        }
                    }
                }
                lemma_freed_same_members(old(heap), heap, gone_old + gone_pending, stale);
                assert(stale.subrange(0, n) =~= stale);
                assert(self.pending@ =~= stale.subrange(n, n));
            }
        } else {
            let mut old_b = Bag::new();
            core::mem::swap(&mut self.old, &mut old_b);
            self.pending.add_bag(old_b);
            core::mem::swap(&mut self.old, &mut self.cur);
            core::mem::swap(&mut self.cur, &mut self.new);
            proof {
                assert(self.pending@ == stale);
                assert forall|i: int, j: int| 0 <= i < j < stale.len() implies stale[i]
                    != stale[j] by {
                    let m = old(self).pending@.len();
                    if j < m {
                    } else if i >= m {
                        assert(old(self).old@[i - m] != old(self).old@[j - m]);
                    } else {
                        assert(old(self).pending@[i] != old(self).old@[j - m]);
                    }
                }
            }
            budget = self.pending.collect_pending(budget, heap);
        }
        self.pending.evict_to_global();
        proof {
            let k = n - self.pending@.len();
            assert forall|i: int| 0 <= i < self.pending@.len() implies #[trigger] self.pending@[i]
                == stale[k + i] by {}
            assert forall|i: int, j: int|
                0 <= i < self.pending@.len() && 0 <= j < self.old@.len() implies self.pending@[i]
                != self.old@[j] by {
                Self::lemma_stale_apart(old(self), k + i, old(self).cur@, j);
            }
            assert forall|i: int, j: int|
                0 <= i < self.pending@.len() && 0 <= j < self.cur@.len() implies self.pending@[i]
                != self.cur@[j] by {
                Self::lemma_stale_apart(old(self), k + i, old(self).new@, j);
            }
            assert forall|i: int, j: int| 0 <= i < j < self.pending@.len() implies self.pending@[i]
                != self.pending@[j] by {
                let m = old(self).pending@.len();
                let x = k + i;
                let y = k + j;
                if y < m {
                } else if x >= m {
                    assert(old(self).old@[x - m] != old(self).old@[y - m]);
                } else {
                    assert(old(self).pending@[x] != old(self).old@[y - m]);
                }
            }
        }
        budget
    }

    /// An address that may be freed is in neither the current nor the new
    /// bag.
    proof fn lemma_stale_apart(l: &Local, x: int, other: Seq<usize>, j: int)
        requires
            l.separate(),
            0 <= x < l.stale().len(),
            0 <= j < other.len(),
            other == l.cur@ || other == l.new@,
        ensures
            l.stale()[x] != other[j],
    {
        let m = l.pending@.len();
        if x < m {
            assert(l.stale()[x] == l.pending@[x]);
        } else {
            assert(l.stale()[x] == l.old@[x - m]);
        }
    }

    /// What `collect` keeps: after the local epoch has moved on from `e0` to
    /// `e1`, the rotated bags are again as old as their names say, and
    /// everything that was freed had been retired two epochs before `e1` or
    /// earlier.
    pub proof fn lemma_collect_keeps(
        before: &Local,
        after: &Local,
        h0: &Heap,
        h1: &Heap,
        k: int,
        holder: Holder,
        e0: int,
        e1: int,
    )
        requires
            before.separate(),
            before.held_in(h0, holder, e0),
            e0 < e1,
            0 <= k <= before.stale().len(),
            freed(h0, h1, before.stale().subrange(0, k)),
            after.pending() == before.stale().subrange(k, before.stale().len() as int),
            after.old@ == before.cur@,
            after.cur@ == before.new@,
            after.new@ == Seq::<usize>::empty(),
        ensures
            after.held_in(h1, holder, e1),
            held(h0, before.stale().subrange(0, k), holder, e1 - 2),
    {
        let stale = before.stale();
        let gone = stale.subrange(0, k);
        let m = before.pending@.len();
        assert forall|i: int| 0 <= i < stale.len() implies h0.is_retired(#[trigger] stale[i])
            && h0.holder(stale[i]) == holder && h0.stamp(stale[i]) <= e0 - 1 by {
            if i < m {
                assert(stale[i] == before.pending@[i]);
            } else {
                assert(stale[i] == before.old@[i - m]);
            }
        }
        assert(held(h0, gone, holder, e1 - 2)) by {
            assert forall|i: int| 0 <= i < gone.len() implies h0.is_retired(#[trigger] gone[i])
                && h0.holder(gone[i]) == holder && h0.stamp(gone[i]) <= e1 - 2 by {
                assert(gone[i] == stale[i]);
            }
        }
        assert(disjoint(gone, before.cur@)) by {
            assert forall|i: int, j: int|
                0 <= i < gone.len() && 0 <= j < before.cur@.len() implies gone[i]
                != before.cur@[j] by {
                Self::lemma_stale_apart(before, i, before.cur@, j);
            }
        }
        assert(disjoint(gone, before.new@)) by {
            assert forall|i: int, j: int|
                0 <= i < gone.len() && 0 <= j < before.new@.len() implies gone[i]
                != before.new@[j] by {
                Self::lemma_stale_apart(before, i, before.new@, j);
            }
        }
        lemma_held_after(h0, h1, gone, before.cur@, holder, e0);
        lemma_held_after(h0, h1, gone, before.new@, holder, e0 + 1);
        let rest = after.pending@;
        assert(held(h0, rest, holder, e0 - 1)) by {
            assert forall|i: int| 0 <= i < rest.len() implies h0.is_retired(#[trigger] rest[i])
                && h0.holder(rest[i]) == holder && h0.stamp(rest[i]) <= e0 - 1 by {
                assert(rest[i] == stale[k + i]);
            }
        }
        assert(disjoint(gone, rest)) by {
            assert forall|i: int, j: int|
                0 <= i < gone.len() && 0 <= j < rest.len() implies gone[i] != rest[j] by {
                let x = i;
                let y = k + j;
                assert(gone[i] == stale[x]);
                assert(rest[j] == stale[y]);
                if y < m {
                    assert(before.pending@[x] != before.pending@[y]);
                } else if x >= m {
                    assert(before.old@[x - m] != before.old@[y - m]);
                } else {
                    assert(before.pending@[x] != before.old@[y - m]);
                }
            }
        }
        lemma_held_after(h0, h1, gone, rest, holder, e0 - 1);
    }

    /// Frees items whose collection was put off, at most `budget` of them,
    /// and returns what is left of the budget.
    pub fn collect_pending(&mut self, budget: usize, heap: &mut Heap) -> (left: usize)
        requires
            old(self).separate(),
            old(heap).wf(),
            forall|i: int|
                0 <= i < old(self).pending().len() ==> old(heap).allocated(old(self).pending()[i]),
        ensures
            final(self).separate(),
            final(heap).wf(),
            left == budget - spec_min(budget as int, old(self).pending().len() as int),
            freed(old(heap), final(heap), old(self).pending().subrange(0, budget - left)),
            final(self).pending() == old(self).pending().subrange(
                budget - left,
                old(self).pending().len() as int,
            ),
            final(self).old@ == old(self).old@,
            final(self).cur@ == old(self).cur@,
            final(self).new@ == old(self).new@,
    {
        if self.pending.has_pending() {
            assert forall|i: int| 0 <= i < self.pending@.len() implies heap.allocated(
                self.pending@[i],
            ) by {
                assert(heap.allocated(self.pending()[i]));
            }
            let left = self.pending.collect_pending(budget, heap);
            proof {
                let k = budget - left;
                assert forall|i: int| 0 <= i < self.pending@.len()
                    implies #[trigger] self.pending@[i]
                    == old(self).pending@[k + i] by {}
            }
            left
        } else {
            proof {
                assert(self.pending@.subrange(0, 0) =~= Seq::<usize>::empty());
                assert(self.pending@.subrange(0, self.pending@.len() as int) =~= self.pending@);
                assert forall|a: usize| #[trigger]
                    freed_at(old(heap), heap, Seq::<usize>::empty(), a) by {}
            }
            budget
        }
    }

    /// The number of items in the three bags, `usize::MAX` if there are
    /// more.
    pub fn size(&self) -> (n: usize)
        ensures
            n == spec_min(
                (self.old@.len() + self.cur@.len() + self.new@.len()) as int,
                usize::MAX as int,
            ),
    {
        self.old.len().saturating_add(self.cur.len()).saturating_add(self.new.len())
    }
}

impl PendingBags {
    /// Turns what waits into a bag, so that it can be donated.
    pub fn into_bag(self) -> (b: Bag)
        ensures
            b@ == self@,
    {
        let mut waiting = self.waiting;
        let mut items: Vec<Item> = Vec::new();
        let ghost all = waiting@;
        while waiting.len() > 0
            invariant
                items@ + waiting@ =~= all,
            decreases waiting@.len(),
        {
            let ghost front = waiting@;
            let item: Item = waiting.pop_front().unwrap();
            items.push(item);
            assert(front[0] == item);
        }
        let b = Bag { items };
        assert(items@ =~= all);
        assert(b@ =~= self@);
        b
    }
}

/// Whether one of the bags from index `from` on holds `a`.
pub open spec fn in_bags(bags: Seq<Seq<usize>>, from: int, a: usize) -> bool {
    exists|b: int| from <= b < bags.len() && (#[trigger] bags[b]).contains(a)
}

/// What `drained` says of the one address `a`, for the bags from `from` on.
pub open spec fn drained_at(
    before: &Heap,
    after: &Heap,
    bags: Seq<Seq<usize>>,
    from: int,
    a: usize,
) -> bool {
    if in_bags(bags, from, a) {
        !after.allocated(a)
    } else {
        before.same_cell(after, a)
    }
}

/// `after` is `before` with the cells in the bags from index `from` on
/// freed and every other cell as it was.
pub open spec fn drained(before: &Heap, after: &Heap, bags: Seq<Seq<usize>>, from: int) -> bool {
    forall|a: usize| #[trigger] drained_at(before, after, bags, from, a)
}

/// A global bag: a stack of the bags that participants donated.
#[derive(Debug)]
pub struct ConcBag {
    bags: Vec<Bag>,
}

impl ConcBag {
    /// The donated bags, the latest last, each as its addresses.
    pub closed spec fn view(&self) -> Seq<Seq<usize>> {
        Seq::new(self.bags@.len(), |b: int| self.bags@[b]@)
    }

    /// No address is held twice, in one donated bag or in two.
    pub open spec fn separate(&self) -> bool {
        &&& forall|b: int| 0 <= b < self@.len() ==> distinct(#[trigger] self@[b])
        &&& forall|b: int, c: int|
            0 <= b < c < self@.len() ==> disjoint(#[trigger] self@[b], #[trigger] self@[c])
    }

    /// Every address in the donated bags is a retired cell of `heap` that
    /// `holder` holds and that was retired at epoch `bound` or earlier.
    pub open spec fn held_in(&self, heap: &Heap, holder: Holder, bound: int) -> bool {
        forall|b: int| 0 <= b < self@.len() ==> held(heap, #[trigger] self@[b], holder, bound)
    }

    /// The donated bags stay held across a step that changes no retired
    /// cell of their holder.
    pub proof fn lemma_held_framed(&self, h0: &Heap, h1: &Heap, holder: Holder, bound: int)
        requires
            self.held_in(h0, holder, bound),
            forall|a: usize|
                h0.is_retired(a) && h0.holder(a) == holder ==> #[trigger] h0.same_cell(h1, a),
        ensures
            self.held_in(h1, holder, bound),
    {
        assert forall|b: int| 0 <= b < self@.len() implies held(
            h1,
            #[trigger] self@[b],
            holder,
            bound,
        ) by {
            let s = self@[b];
            assert(held(h0, s, holder, bound));
            assert forall|i: int| 0 <= i < s.len() implies h1.is_retired(#[trigger] s[i])
                && h1.holder(s[i]) == holder && h1.stamp(s[i]) <= bound by {
                assert(h0.same_cell(h1, s[i]));
            }
        }
    }

    /// Emptying held bags is a reclamation from their holder.
    pub proof fn lemma_drained_is_reclaimed(
        &self,
        before: &Heap,
        after: &Heap,
        holder: Holder,
        bound: int,
    )
        requires
            self.held_in(before, holder, bound),
            drained(before, after, self@, 0),
        ensures
            before.reclaimed_from(after, holder, bound),
    {
        assert forall|a: usize| #[trigger]
            before.same_cell(after, a) || (before.is_retired(a) && before.holder(a) == holder
                && before.stamp(a) <= bound && !after.allocated(a)) by {
            assert(drained_at(before, after, self@, 0, a));
            if in_bags(self@, 0, a) {
                let b = choose|b: int| 0 <= b < self@.len() && (#[trigger] self@[b]).contains(a);
                let k = choose|k: int| 0 <= k < self@[b].len() && self@[b][k] == a;
                assert(held(before, self@[b], holder, bound));
                assert(before.is_retired(self@[b][k]));
            }
        }
    }

    /// Held bags hold allocated cells.
    pub proof fn lemma_held_allocated(&self, heap: &Heap, holder: Holder, bound: int)
        requires
            self.held_in(heap, holder, bound),
        ensures
            forall|b: int, i: int|
                0 <= b < self@.len() && 0 <= i < self@[b].len() ==> heap.allocated(
                    #[trigger] self@[b][i],
                ),
    {
        assert forall|b: int, i: int|
            0 <= b < self@.len() && 0 <= i < self@[b].len() implies heap.allocated(
            #[trigger] self@[b][i],
        ) by {
            assert(held(heap, self@[b], holder, bound));
        }
    }

    /// A global bag that nothing was donated to.
    pub fn new() -> (c: ConcBag)
        ensures
            c@ == Seq::<Seq<usize>>::empty(),
    {
        let c = ConcBag { bags: Vec::new() };
        assert(c@ =~= Seq::<Seq<usize>>::empty());
        c
    }

    /// Donates the bag `t`.
    pub fn insert(&mut self, t: Bag)
        ensures
            final(self)@ == old(self)@.push(t@),
    {
        self.bags.push(t);
        assert(self@ =~= old(self)@.push(t@));
    }

    /// Whether a bag was donated since the last collection.
    pub fn has_garbage(&self) -> (r: bool)
        ensures
            r == (self@.len() > 0),
    {
        self.bags.len() > 0
    }

    /// Frees every item of every donated bag and forgets the bags.
    pub fn collect(&mut self, heap: &mut Heap)
        requires
            old(self).separate(),
            old(heap).wf(),
            forall|b: int, i: int|
                0 <= b < old(self)@.len() && 0 <= i < old(self)@[b].len() ==> old(heap).allocated(
                    #[trigger] old(self)@[b][i],
                ),
        ensures
            final(self)@ == Seq::<Seq<usize>>::empty(),
            final(heap).wf(),
            drained(old(heap), final(heap), old(self)@, 0),
    {
        let ghost all = self@;
        // nothing to take when nothing was donated
        if self.bags.len() == 0 {
            proof {
                assert forall|a: usize| #[trigger] drained_at(old(heap), heap, all, 0, a) by {}
            }
            return ;
        }
        let mut taken: Vec<Bag> = Vec::new();
        core::mem::swap(&mut self.bags, &mut taken);
        assert(self@ =~= Seq::<Seq<usize>>::empty());
        proof {
            assert forall|a: usize| #[trigger]
                drained_at(old(heap), heap, all, all.len() as int, a) by {}
        }
        while taken.len() > 0
            invariant
                taken@.len() <= all.len(),
                forall|b: int| 0 <= b < taken@.len() ==> (#[trigger] taken@[b])@ == all[b],
                all == old(self)@,
                old(self).separate(),
                self@ == Seq::<Seq<usize>>::empty(),
                heap.wf(),
                forall|b: int, i: int|
                    0 <= b < all.len() && 0 <= i < all[b].len() ==> old(heap).allocated(
                        #[trigger] all[b][i],
                    ),
                drained(old(heap), heap, all, taken@.len() as int),
            decreases taken@.len(),
        {
            let ghost j = taken@.len() - 1;
            let ghost mid = *heap;
            let mut bag = taken.pop().unwrap();
            proof {
                assert(bag@ == all[j]);
                assert(distinct(all[j]));
                assert forall|i: int| 0 <= i < bag@.len() implies heap.allocated(bag@[i]) by {
                    let a = bag@[i];
                    assert(old(heap).allocated(all[j][i]));
                    if in_bags(all, j + 1, a) {
                        let c = choose|c: int| j + 1 <= c < all.len()
                            && (#[trigger] all[c]).contains(a);
                        let k = choose|k: int| 0 <= k < all[c].len() && all[c][k] == a;
                        assert(disjoint(all[j], all[c]));
                        assert(all[j][i] != all[c][k]);
                    }
                    assert(drained_at(old(heap), heap, all, j + 1, a));
                }
            }
            bag.collect(heap);
            proof {
                assert forall|a: usize| #[trigger] drained_at(old(heap), heap, all, j, a) by {
                    assert(drained_at(old(heap), &mid, all, j + 1, a));
                    assert(freed_at(&mid, heap, all[j], a));
                    if in_bags(all, j + 1, a) {
                        let c = choose|c: int| j + 1 <= c < all.len()
                            && (#[trigger] all[c]).contains(a);
                        assert(j <= c < all.len() && all[c].contains(a));
                        if all[j].contains(a) {
                        } else {
                            assert(mid.same_cell(heap, a));
                        }
                    } else if all[j].contains(a) {
                        assert(j <= j < all.len() && all[j].contains(a));
                    } else {
                        if in_bags(all, j, a) {
                            let c = choose|c: int| j <= c < all.len()
                                && (#[trigger] all[c]).contains(a);
                            if c > j {
                                assert(j + 1 <= c < all.len() && all[c].contains(a));
                            }
                        }
                    }
                }
            }
        }
    }
}

} // verus!
