//! A model of the allocator: which addresses are allocated, and which of
//! those wait to be freed.
//!
//! An address is a positive number; 0 stands for the null pointer. A cell is
//! free, live (allocated and possibly reachable) or retired (unlinked, and
//! waiting in a garbage bag for the epoch to move on). For a retired cell
//! the heap remembers, as ghost state, the global epoch at which it was
//! retired and the owner of the bag that holds it.

use vstd::prelude::*;

verus! {

/// The state of one cell of the heap.
#[derive(Clone, Copy, Debug, PartialEq, Eq, Structural)]
pub enum CellState {
    /// Not allocated.
    Free,
    /// Allocated and not yet unlinked.
    Live,
    /// Unlinked; waiting in a garbage bag.
    Retired,
}

/// Who holds a retired cell: a participant's local bags, or one of the
/// three global bags.
pub ghost enum Holder {
    Local(usize),
    Global(int),
}

/// The kind of the cells that hold participant records.
pub const RECORD_KIND: usize = 0;

/// The allocator's books.
pub struct Heap {
    cells: Vec<CellState>,
    kinds: Vec<usize>,
    spare: Vec<usize>,
    stamps: Ghost<Map<usize, int>>,
    holders: Ghost<Map<usize, Holder>>,
}

impl Heap {
    /// The state of the cell at `a`; an address that was never handed out is
    /// free.
    pub closed spec fn status(&self, a: usize) -> CellState {
        if 1 <= a <= self.cells@.len() {
            self.cells@[a - 1]
        } else {
            CellState::Free
        }
    }

    /// The kind of the cell at `a`: a number that tells what type of value
    /// the cell was allocated for.
    pub closed spec fn kind(&self, a: usize) -> usize {
        if 1 <= a <= self.kinds@.len() {
            self.kinds@[a - 1]
        } else {
            0
        }
    }

    /// The global epoch at which the cell at `a` was retired.
    pub closed spec fn stamp(&self, a: usize) -> int {
        self.stamps@[a]
    }

    /// The owner of the bag that holds the retired cell at `a`.
    pub closed spec fn holder(&self, a: usize) -> Holder {
        self.holders@[a]
    }

    /// Whether the cell at `a` is allocated.
    pub open spec fn allocated(&self, a: usize) -> bool {
        self.status(a) != CellState::Free
    }

    /// Whether the cell at `a` is allocated and not unlinked.
    pub open spec fn is_live(&self, a: usize) -> bool {
        self.status(a) == CellState::Live
    }

    /// Whether the cell at `a` waits to be freed.
    pub open spec fn is_retired(&self, a: usize) -> bool {
        self.status(a) == CellState::Retired
    }

    /// Structural invariant: the addresses kept for reuse are free cells,
    /// and none is kept twice.
    pub closed spec fn wf(&self) -> bool {
        &&& self.kinds@.len() == self.cells@.len()
        &&& forall|i: int|
            0 <= i < self.spare@.len() ==> 1 <= #[trigger] self.spare@[i] <= self.cells@.len()
                && self.cells@[self.spare@[i] - 1] == CellState::Free
        &&& forall|i: int, j: int|
            0 <= i < j < self.spare@.len() ==> self.spare@[i] != self.spare@[j]
    }

    /// The cell at `a` is the same in `self` and in `then`.
    pub open spec fn same_cell(&self, then: &Heap, a: usize) -> bool {
        &&& then.status(a) == self.status(a)
        &&& then.kind(a) == self.kind(a)
        &&& then.stamp(a) == self.stamp(a)
        &&& then.holder(a) == self.holder(a)
    }

    /// The cell at `a` is in the same state in `self` and in `then`, whoever
    /// holds it.
    pub open spec fn same_state(&self, then: &Heap, a: usize) -> bool {
        &&& then.status(a) == self.status(a)
        &&& then.kind(a) == self.kind(a)
        &&& then.stamp(a) == self.stamp(a)
    }

    /// `then` is `self` after some retired cells that `holder` held, none
    /// retired after epoch `bound`, were freed; every other cell is as it
    /// was.
    pub open spec fn reclaimed_from(&self, then: &Heap, holder: Holder, bound: int) -> bool {
        forall|a: usize| #[trigger]
            self.same_cell(then, a) || (self.is_retired(a) && self.holder(a) == holder
                && self.stamp(a) <= bound && !then.allocated(a))
    }

    /// The null address is never allocated.
    pub proof fn lemma_null_is_free(&self)
        ensures
            !self.allocated(0),
    {
    }

    /// The address that the next allocation returns: the one that was freed
    /// last and not handed out since, or the one behind the largest so
    /// far.
    pub open spec fn next_address(heap: Heap) -> usize {
        if heap.reusable().len() > 0 {
            heap.reusable().last()
        } else {
            (heap.extent() + 1) as usize
        }
    }

    /// The addresses that were freed and not handed out since, in the
    /// order in which they were freed. The last is the first to be handed
    /// out again.
    pub closed spec fn reusable(&self) -> Seq<usize> {
        self.spare@
    }

    /// A heap without cells.
    pub fn new() -> (h: Heap)
        ensures
            h.wf(),
            h.extent() == 0,
            h.reusable() == Seq::<usize>::empty(),
            forall|a: usize| !h.allocated(a),
    {
        Heap {
            cells: Vec::new(),
            kinds: Vec::new(),
            spare: Vec::new(),
            stamps: Ghost(Map::empty()),
            holders: Ghost(Map::empty()),
        }
    }

    /// Allocates a cell of the given kind and returns its address: the one
    /// freed last, if any waits for reuse, else a new one.
    pub fn allocate(&mut self, kind: usize) -> (a: usize)
        requires
            old(self).wf(),
        ensures
            final(self).wf(),
            a != 0,
            !old(self).allocated(a),
            final(self).is_live(a),
            final(self).kind(a) == kind,
            forall|b: usize| b != a ==> old(self).same_cell(final(self), b),
            a == Self::next_address(*old(self)),
            final(self).reusable() == (if old(self).reusable().len() > 0 {
                old(self).reusable().drop_last()
            } else {
                old(self).reusable()
            }),
            final(self).extent() == (if old(self).reusable().len() > 0 {
                old(self).extent()
            } else {
                old(self).extent() + 1
            }),
    {
        match self.spare.pop() {
            Some(a) => {
                assert(a == old(self).spare@[old(self).spare@.len() - 1]);
                self.cells[a - 1] = CellState::Live;
                self.kinds[a - 1] = kind;
                a
            },
            None => {
                self.cells.push(CellState::Live);
                self.kinds.push(kind);
                self.cells.len()
            },
        }
    }

    /// Marks the live cell at `a` as unlinked at global epoch `stamp` and
    /// held by `holder`.
    pub(crate) fn retire(&mut self, a: usize, Ghost(stamp): Ghost<int>,
        Ghost(holder): Ghost<Holder>)
        requires
            old(self).wf(),
            old(self).is_live(a),
        ensures
            final(self).wf(),
            final(self).is_retired(a),
            final(self).kind(a) == old(self).kind(a),
            final(self).stamp(a) == stamp,
            final(self).holder(a) == holder,
            forall|b: usize| b != a ==> old(self).same_cell(final(self), b),
            final(self).reusable() == old(self).reusable(),
            final(self).extent() == old(self).extent(),
    {
        self.cells[a - 1] = CellState::Retired;
        proof {
            self.stamps = Ghost(self.stamps@.insert(a, stamp));
            self.holders = Ghost(self.holders@.insert(a, holder));
        }
    }

    /// Frees the cell at `a`, which is live or retired.
    pub fn free(&mut self, a: usize)
        requires
            old(self).wf(),
            old(self).allocated(a),
        ensures
            final(self).wf(),
            !final(self).allocated(a),
            forall|b: usize| b != a ==> old(self).same_cell(final(self), b),
            final(self).reusable() == old(self).reusable().push(a),
            final(self).extent() == old(self).extent(),
    {
        self.cells[a - 1] = CellState::Free;
        self.spare.push(a);
        proof {
            assert forall|i: int| 0 <= i < self.spare@.len() implies 1 <= #[trigger] self.spare@[i]
                <= self.cells@.len() && self.cells@[self.spare@[i] - 1] == CellState::Free by {
                if i < old(self).spare@.len() {
                    assert(self.spare@[i] == old(self).spare@[i]);
                }
            }
            assert forall|i: int, j: int| 0 <= i < j < self.spare@.len() implies self.spare@[i]
                != self.spare@[j] by {
                assert(self.spare@[i] == old(self).spare@[i]);
                if j < old(self).spare@.len() {
                    assert(self.spare@[j] == old(self).spare@[j]);
                }
            }
        }
    }

    /// Hands the retired cells that `from` holds and `moved` names over to
    /// `to`. Only the books change.
    pub(crate) fn rehome(
        &mut self,
        Ghost(moved): Ghost<Set<usize>>,
        Ghost(from): Ghost<Holder>,
        Ghost(to): Ghost<Holder>,
    )
        requires
            old(self).wf(),
        ensures
            final(self).wf(),
            final(self).reusable() == old(self).reusable(),
            final(self).extent() == old(self).extent(),
            forall|a: usize|
                #![trigger final(self).status(a)]
                #![trigger final(self).stamp(a)]
                #![trigger final(self).kind(a)]
                final(self).status(a) == old(self).status(a) && final(self).stamp(a)
                    == old(self).stamp(a) && final(self).kind(a) == old(self).kind(a),
            forall|a: usize|
                #![trigger final(self).holder(a)]
                final(self).holder(a) == (if moved.contains(a) && old(self).holder(a) == from {
                    to
                } else {
                    old(self).holder(a)
                }),
    {
        proof {
            let before = self.holders@;
            self.holders = Ghost(
                Map::new(
                    |a: usize| true,
                    |a: usize|
                        if moved.contains(a) && before[a] == from {
                            to
                        } else {
                            before[a]
                        },
                ),
            );
        }
    }

    /// Whether the cell at `a` is allocated.
    pub fn is_allocated(&self, a: usize) -> (r: bool)
        ensures
            r == self.allocated(a),
    {
        if a >= 1 && a <= self.cells.len() {
            match self.cells[a - 1] {
                CellState::Free => false,
                _ => true,
            }
        } else {
            false
        }
    }

    /// The state of the cell at `a`.
    pub fn state_of(&self, a: usize) -> (r: CellState)
        ensures
            r == self.status(a),
    {
        if a >= 1 && a <= self.cells.len() {
            self.cells[a - 1]
        } else {
            CellState::Free
        }
    }

    /// The kind of the cell at `a`.
    pub fn kind_of(&self, a: usize) -> (r: usize)
        requires
            self.wf(),
        ensures
            r == self.kind(a),
    {
        if a >= 1 && a <= self.kinds.len() {
            self.kinds[a - 1]
        } else {
            0
        }
    }

    /// The largest address ever handed out; 0 if none was.
    pub closed spec fn extent(&self) -> nat {
        self.cells@.len()
    }

    /// No address beyond the largest ever handed out is allocated.
    pub proof fn lemma_extent(&self, a: usize)
        requires
            a > self.extent(),
        ensures
            !self.allocated(a),
    {
    }

    /// The largest address ever handed out; 0 if none was.
    pub fn high_water(&self) -> (r: usize)
        ensures
            r == self.extent(),
    {
        self.cells.len()
    }
}

} // verus!
