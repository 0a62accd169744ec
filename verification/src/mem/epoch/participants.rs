//! The list of participants: a singly linked list of records, to which
//! threads prepend themselves and from which the records of threads that
//! have left are taken off lazily, by whoever walks the list.

use crate::mem::epoch::garbage::distinct;
use crate::mem::epoch::heap::{Heap, Holder, RECORD_KIND};
use crate::mem::epoch::participant::Participant;
use crate::mem::epoch::{Arena, Atomic, Guard, MemOrder, Owned, Shared};
use vstd::prelude::*;

verus! {

/// A participant record as a node of the participant list.
pub struct ParticipantNode(pub Participant);

impl ParticipantNode {
    /// The node of a thread that has just come into being.
    pub fn new() -> (n: ParticipantNode)
        ensures
            n.0.try_gc,
            n.0.next@ == 0,
            n.0.fresh(),
    {
        ParticipantNode(Participant::new())
    }
}

/// The list of the threads that take part in epoch management.
pub struct Participants {
    head: Atomic,
    cleaning: bool,
    records: Arena<ParticipantNode>,
    order: Ghost<Seq<usize>>,
}

/// The address that follows position `i` of `order`: 0 at the end.
pub open spec fn successor(order: Seq<usize>, i: int) -> usize {
    if i + 1 < order.len() {
        order[i + 1]
    } else {
        0
    }
}

impl Participants {
    /// The addresses of the records on the list, from the head on.
    pub closed spec fn order(&self) -> Seq<usize> {
        self.order@
    }

    /// The record at address `a`.
    pub closed spec fn record(&self, a: usize) -> Participant {
        self.records.at(a).0
    }

    /// Whether a record is stored under `a`.
    pub closed spec fn stored(&self, a: usize) -> bool {
        self.records.has(a)
    }

    /// Whether `a` is the address of a record on the list.
    pub open spec fn listed(&self, a: usize) -> bool {
        self.order().contains(a)
    }

    /// The list is in order: every record on it is a live cell of the
    /// heap, each is linked to the next and the last to nothing, none
    /// occurs twice, and no traversal is busy taking records off.
    pub closed spec fn linked(&self, heap: &Heap) -> bool {
        !self.cleaning && self.chained(heap)
    }

    /// What `linked` says, but for the flag of the traversals.
    spec fn chained(&self, heap: &Heap) -> bool {
        &&& self.records.kind() == RECORD_KIND
        &&& distinct(self.order@)
        &&& self.head@ == (if self.order@.len() > 0 {
            self.order@[0]
        } else {
            0
        })
        &&& forall|i: int|
            0 <= i < self.order@.len() ==> self.records.has(#[trigger] self.order@[i])
                && heap.is_live(self.order@[i]) && heap.kind(self.order@[i]) == RECORD_KIND
        &&& forall|i: int|
            0 <= i < self.order@.len() ==> (#[trigger] self.records.at(self.order@[i])).0.next@
                == successor(self.order@, i)
    }

    /// The list is in order and every record on it is, at the global epoch
    /// `global`.
    pub open spec fn wf(&self, heap: &Heap, global: int) -> bool {
        &&& self.linked(heap)
        &&& forall|i: int|
            0 <= i < self.order().len() ==> (#[trigger] self.record(self.order()[i])).inv(
                heap,
                self.order()[i],
                global,
            )
    }

    /// A record on the list is a live cell of the record kind, and its
    /// value is stored.
    pub proof fn lemma_listed_is_live(&self, heap: &Heap, a: usize)
        requires
            self.linked(heap),
            self.listed(a),
        ensures
            heap.is_live(a),
            heap.kind(a) == RECORD_KIND,
            self.stored(a),
            a != 0,
    {
        let i = choose|i: int| 0 <= i < self.order@.len() && self.order@[i] == a;
        assert(self.records.has(self.order@[i]));
    }

    /// `then` has the same records on its list, in the same order.
    pub closed spec fn same_shape(&self, then: &Participants) -> bool {
        &&& then.head == self.head
        &&& then.cleaning == self.cleaning
        &&& then.order@ == self.order@
        &&& then.records.kind() == self.records.kind()
    }

    /// A list has its own shape.
    pub proof fn lemma_same_shape_refl(&self)
        ensures
            self.same_shape(self),
    {
    }

    /// Lists of the same shape have the same records in the same order.
    pub proof fn lemma_same_shape_order(&self, then: &Participants)
        requires
            self.same_shape(then),
        ensures
            then.order() == self.order(),
    {
    }

    /// A list stays linked across a step that keeps its shape, the links
    /// of its records and their cells.
    pub proof fn lemma_linked_framed(&self, then: &Participants, h0: &Heap, h1: &Heap)
        requires
            self.linked(h0),
            self.same_shape(then),
            forall|i: int|
                0 <= i < self.order().len() ==> then.stored(#[trigger] self.order()[i])
                    && then.record(self.order()[i]).next == self.record(self.order()[i]).next,
            forall|i: int|
                0 <= i < self.order().len() ==> h1.is_live(#[trigger] self.order()[i]) && h1.kind(
                    self.order()[i],
                ) == RECORD_KIND,
        ensures
            then.linked(h1),
    {
        let order = self.order@;
        assert forall|i: int| 0 <= i < order.len() implies (#[trigger] then.records.at(
            order[i],
        )).0.next@ == successor(order, i) by {
            assert(then.record(self.order()[i]).next == self.record(self.order()[i]).next);
            assert(self.records.at(order[i]).0.next@ == successor(order, i));
        }
        assert forall|i: int| 0 <= i < order.len() implies then.records.has(#[trigger] order[i])
            && h1.is_live(order[i]) && h1.kind(order[i]) == RECORD_KIND by {
            assert(then.stored(self.order()[i]));
            assert(h1.is_live(self.order()[i]));
        }
    }

    /// The record at `a`.
    pub fn get(&self, a: usize, heap: &Heap) -> (p: &Participant)
        requires
            self.linked(heap),
            self.listed(a),
        ensures
            *p == self.record(a),
    {
        proof {
            self.lemma_listed_is_live(heap, a);
        }
        let found = Shared::from_raw(a);
        &self.records.get(found.unwrap(), heap).0
    }

    /// Moves the record at `a` out of the list's store, to work on it.
    /// The list keeps its shape; the record has to be put back.
    pub fn take_out(&mut self, a: usize) -> (p: Participant)
        requires
            old(self).stored(a),
        ensures
            p == old(self).record(a),
            old(self).same_shape(final(self)),
            final(self).order() == old(self).order(),
            !final(self).stored(a),
            forall|b: usize|
                b != a && #[trigger] old(self).stored(b) ==> final(self).stored(b)
                    && final(self).record(b) == old(self).record(b),
    {
        let node = self.records.take(a);
        proof {
            assert forall|b: usize| b != a && #[trigger] old(self).stored(b) implies self.stored(b)
                && self.record(b) == old(self).record(b) by {
                assert(old(self).records.same_at(&self.records, b));
            }
        }
        node.0
    }

    /// Puts a record that was taken out back under its address `a`.
    pub fn put_back(&mut self, a: usize, p: Participant)
        requires
            a != 0,
        ensures
            old(self).same_shape(final(self)),
            final(self).order() == old(self).order(),
            final(self).stored(a),
            final(self).record(a) == p,
            forall|b: usize|
                b != a && #[trigger] old(self).stored(b) ==> final(self).stored(b)
                    && final(self).record(b) == old(self).record(b),
    {
        self.records.put(a, ParticipantNode(p));
        proof {
            assert forall|b: usize| b != a && #[trigger] old(self).stored(b) implies self.stored(b)
                && self.record(b) == old(self).record(b) by {
                assert(old(self).records.same_at(&self.records, b));
            }
        }
    }

    /// Taking out and putting back keeps the shape of the list.
    pub proof fn lemma_same_shape_trans(&self, mid: &Participants, then: &Participants)
        requires
            self.same_shape(mid),
            mid.same_shape(then),
        ensures
            self.same_shape(then),
    {
    }

    /// The addresses of the records on the list, from the head on.
    pub fn addresses(&self, heap: &Heap) -> (r: Vec<usize>)
        requires
            self.linked(heap),
        ensures
            r@ == self.order(),
    {
        let g = Guard::held_by(0, Ghost(0));
        let mut found: Vec<usize> = Vec::new();
        let mut cur = self.head.load(MemOrder::Acquire, &g);
        loop
            invariant
                self.linked(heap),
                found@.len() <= self.order@.len(),
                found@ == self.order@.subrange(0, found@.len() as int),
                crate::mem::epoch::opt_addr(cur) == (if found@.len() < self.order@.len() {
                    self.order@[found@.len() as int]
                } else {
                    0
                }),
            ensures
                found@ == self.order@,
            decreases self.order@.len() - found@.len(),
        {
            match cur {
                None => {
                    proof {
                        if found@.len() < self.order@.len() {
                            assert(self.listed(self.order@[found@.len() as int]));
                            self.lemma_listed_is_live(heap, self.order@[found@.len() as int]);
                        }
                        assert(found@ =~= self.order@);
                    }
                    break ;
                },
                Some(n) => {
                    let a = n.as_raw();
                    let ghost i = found@.len() as int;
                    proof {
                        assert(i < self.order@.len());
                        assert(self.listed(self.order@[i]));
                        self.lemma_listed_is_live(heap, a);
                        assert(self.records.at(self.order@[i]).0.next@
                            == successor(self.order@, i));
                    }
                    found.push(a);
                    cur = self.records.get(n, heap).0.next.load(MemOrder::Relaxed, &g);
                    proof {
                        assert(found@ =~= self.order@.subrange(0, i + 1));
                    }
                },
            }
        }
        found
    }

    /// An empty list.
    pub fn new() -> (l: Participants)
        ensures
            l.order() == Seq::<usize>::empty(),
            forall|heap: &Heap, global: int| l.wf(heap, global),
    {
        Participants {
            head: Atomic::null(),
            cleaning: false,
            records: Arena::new(RECORD_KIND),
            order: Ghost(Seq::empty()),
        }
    }

    /// Enrols a new thread: allocates a record for it, puts the record at
    /// the head of the list and returns the record's address.
    pub fn enroll(&mut self, heap: &mut Heap) -> (me: usize)
        requires
            old(self).linked(old(heap)),
            old(heap).wf(),
        ensures
            final(self).linked(final(heap)),
            final(heap).wf(),
            final(self).order() == seq![me] + old(self).order(),
            me != 0,
            !old(heap).allocated(me),
            final(heap).is_live(me),
            final(heap).kind(me) == RECORD_KIND,
            forall|b: usize| b != me ==> old(heap).same_cell(final(heap), b),
            forall|b: usize|
                b != me && old(self).stored(b) ==> final(self).stored(b) && final(self).record(b)
                    == old(self).record(b),
            final(self).stored(me),
            final(self).record(me).try_gc,
            final(self).record(me).fresh(),
    {
        let mut participant = Owned::new(ParticipantNode::new());
        // enrolling cannot pin, for want of a record; the new record cannot
        // be taken off the list before its thread leaves
        let g = Guard::held_by(0, Ghost(0));
        let mut me: usize = 0;
        loop
            invariant_except_break
                *self == *old(self),
                *heap == *old(heap),
                participant@.0.try_gc,
                participant@.0.fresh(),
            invariant
                old(self).linked(old(heap)),
                old(heap).wf(),
            ensures
                self.linked(heap),
                heap.wf(),
                self.order() == seq![me] + old(self).order(),
                me != 0,
                !old(heap).allocated(me),
                heap.is_live(me),
                heap.kind(me) == RECORD_KIND,
                forall|b: usize| b != me ==> old(heap).same_cell(heap, b),
                forall|b: usize|
                    b != me && old(self).stored(b) ==> self.stored(b) && self.record(b)
                        == old(self).record(b),
                self.stored(me),
                self.record(me).try_gc,
                self.record(me).fresh(),
            decreases 0int,
        {
            let head = self.head.load(MemOrder::Relaxed, &g);
            participant.get_mut().0.next.store_shared(head, MemOrder::Relaxed);
            let ghost made = participant@;
            match self.head.cas_and_ref(
                head,
                participant,
                MemOrder::Release,
                &g,
                &mut self.records,
                heap,
            ) {
                Ok(shared) => {
                    me = shared.as_raw();
                    proof {
                        self.order = Ghost(seq![me] + old(self).order@);
                        let order = self.order@;
                        assert(self.records.at(me) == made);
                        assert forall|i: int| 0 <= i < order.len() implies self.records.has(
                            #[trigger] order[i],
                        ) && heap.is_live(order[i]) && heap.kind(order[i]) == RECORD_KIND by {
                            if i > 0 {
                                let b = old(self).order@[i - 1];
                                assert(order[i] == b);
                                assert(old(self).records.has(b));
                                assert(old(heap).is_live(b));
                                assert(old(heap).same_cell(heap, b));
                                assert(old(self).records.same_at(&self.records, b));
                            }
                        }
                        assert forall|i: int| 0 <= i < order.len() implies (
                        #[trigger] self.records.at(order[i])).0.next@ == successor(order, i) by {
                            if i > 0 {
                                let b = old(self).order@[i - 1];
                                assert(order[i] == b);
                                assert(old(self).records.has(b));
                                assert(old(heap).is_live(b));
                                assert(old(self).records.same_at(&self.records, b));
                                assert(old(self).records.at(b).0.next@ == successor(
                                    old(self).order@,
                                    i - 1,
                                ));
                            }
                        }
                        assert forall|i: int, j: int| 0 <= i < j < order.len() implies order[i]
                            != order[j] by {
                            if i > 0 {
                                assert(order[i] == old(self).order@[i - 1]);
                            } else {
                                assert(order[j] == old(self).order@[j - 1]);
                                assert(old(heap).is_live(old(self).order@[j - 1]));
                            }
                        }
                        assert forall|b: usize| b != me && old(self).stored(b) implies self.stored(
                            b,
                        ) && self.record(b) == old(self).record(b) by {
                            assert(old(self).records.same_at(&self.records, b));
                        }
                    }
                    break ;
                },
                Err(owned) => {
                    participant = owned;
                },
            }
        }
        me
    }
}

/// A walk over the active records of the participant list. It stands
/// behind the link that it read last: the head of the list at first, then
/// the link out of the record that it returned last.
pub struct Iter {
    at: usize,
    is_first: bool,
    pos: Ghost<int>,
}

impl Participants {
    /// A walk that starts at the head of the list.
    pub fn iter(&self, g: &Guard) -> (it: Iter)
        ensures
            it.passed() == 0,
            it.valid(self),
    {
        Iter { at: 0, is_first: true, pos: Ghost(0) }
    }

    /// The address that the link at `at` holds: the head's for 0, else the
    /// one out of the record at `at`.
    spec fn link(&self, at: usize) -> usize {
        if at == 0 {
            self.head@
        } else {
            self.records.at(at).0.next@
        }
    }

    /// Reads the link at `at`.
    fn load_link(&self, at: usize, ord: MemOrder, guard: &Guard, heap: &Heap) -> (r: Option<Shared>)
        requires
            crate::mem::epoch::load_order(ord),
            at != 0 ==> self.records.readable(heap, at),
        ensures
            crate::mem::epoch::opt_addr(r) == self.link(at),
            r is None <==> self.link(at) == 0,
    {
        if at == 0 {
            self.head.load(ord, guard)
        } else {
            let found = Shared::from_raw(at);
            self.records.get(found.unwrap(), heap).0.next.load(ord, guard)
        }
    }

    /// Sets the link at `at` to `new` if it holds `current`; says whether
    /// it did.
    fn cas_link(
        &mut self,
        at: usize,
        current: Option<Shared>,
        new: Option<Shared>,
        ord: MemOrder,
    ) -> (done: bool)
        requires
            at != 0 ==> old(self).records.has(at),
        ensures
            done == (old(self).link(at) == crate::mem::epoch::opt_addr(current)),
            final(self).link(at) == (if done {
                crate::mem::epoch::opt_addr(new)
            } else {
                old(self).link(at)
            }),
            final(self).cleaning == old(self).cleaning,
            final(self).order@ == old(self).order@,
            final(self).records.kind() == old(self).records.kind(),
            at != 0 ==> final(self).head == old(self).head && final(self).records.has(at) && (
            Participant { next: old(self).records.at(at).0.next, ..final(self).records.at(at).0 })
                == old(self).records.at(at).0,
            at == 0 ==> final(self).records == old(self).records,
            forall|b: usize| b != at ==> old(self).records.same_at(&final(self).records, b),
    {
        if at == 0 {
            self.head.cas_shared(current, new, ord)
        } else {
            let mut node = self.records.take(at);
            let ghost taken = self.records;
            let done = node.0.next.cas_shared(current, new, ord);
            self.records.put(at, node);
            proof {
                assert forall|b: usize| b != at implies old(self).records.same_at(
                    &self.records,
                    b,
                ) by {
                    assert(old(self).records.same_at(&taken, b));
                    assert(taken.same_at(&self.records, b));
                }
            }
            done
        }
    }
}

impl Iter {
    /// The number of records that the walk has passed.
    pub closed spec fn passed(&self) -> int {
        self.pos@
    }

    /// The walk stands at the head of the list, having passed nothing, or
    /// behind the last record that it passed.
    pub closed spec fn valid(&self, list: &Participants) -> bool {
        &&& 0 <= self.pos@ <= list.order@.len()
        &&& self.at == (if self.pos@ == 0 {
            0
        } else {
            list.order@[self.pos@ - 1]
        })
        &&& self.pos@ > 0 ==> !self.is_first
    }

    /// A walk has passed no more records than the list holds.
    pub proof fn lemma_valid_bounds(&self, list: &Participants)
        requires
            self.valid(list),
        ensures
            0 <= self.passed() <= list.order().len(),
    {
    }

    /// The next active record, or `None` at the end of the list. Each
    /// record of a thread that has left, from where the walk stands up to
    /// the next active record, is taken off the list and handed to
    /// `guard`'s participant as garbage: what is left of the list behind
    /// the walk starts with the record returned, or is empty.
    #[verifier::rlimit(60)]
    pub fn next(
        &mut self,
        list: &mut Participants,
        heap: &mut Heap,
        guard: &Guard,
        Ghost(global): Ghost<int>,
    ) -> (r: Option<usize>)
        requires
            old(list).wf(old(heap), global),
            old(heap).wf(),
            old(self).valid(old(list)),
            old(list).listed(guard.owner()),
            old(list).record(guard.owner()).pinned(),
        ensures
            final(list).wf(final(heap), global),
            final(heap).wf(),
            final(self).valid(final(list)),
            final(list).listed(guard.owner()),
            // what is left on the list was on it, in the same order, and is
            // as it was but for its link and the garbage of the walker
            forall|i: int|
                0 <= i < old(self).passed() ==> final(list).order()[i] == old(list).order()[i],
            forall|b: usize| (#[trigger] final(list).listed(b)) ==> old(list).listed(b)
                && final(list).record(b).era()
                    == old(list).record(b).era() && final(list).record(b).in_critical
                        == old(list).record(b).in_critical && final(list).record(b).active
                        == old(list).record(
                    b,
                ).active && final(list).record(b).try_gc == old(list).record(b).try_gc && (b
                    != guard.owner() ==> final(list).record(b).garbage
                    == old(list).record(b).garbage),
            // only records of threads that have left were taken off
            forall|b: usize| (#[trigger] old(list).listed(b)) && !final(list).listed(b)
                ==> !old(list).record(b).active,
            // each record taken off is now a retired cell that the
            // walker holds; no other cell changed
            forall|a: usize| (#[trigger] old(heap).same_cell(final(heap), a))
                || (old(list).listed(a) && !final(list).listed(a) && final(heap).is_retired(a)
                && final(heap).kind(a) == RECORD_KIND
                    && final(heap).holder(a) == Holder::Local(guard.owner()) && final(heap).stamp(
                    a,
                ) == global),
            // the records taken off are those that stood between the walk
            // and the next active record, or the end of the list: they had
            // left, and each is a retired cell now
            final(list).order().len() <= old(list).order().len(),
            final(list).order()
                == old(list).order().subrange(0, old(self).passed()) + old(list).order().subrange(
                old(self).passed() + old(list).order().len() - final(list).order().len(),
                old(list).order().len() as int,
            ),
            forall|i: int|
                old(self).passed() <= i < old(self).passed() + old(list).order().len()
                    - final(list).order().len()
                    ==> !old(list).record(#[trigger] old(list).order()[i]).active
                    && !final(list).listed(old(list).order()[i]) && final(heap).is_retired(
                    old(list).order()[i],
                ),
            // the walker's garbage grows by the records taken off, in their
            // order, and by nothing else
            final(list).record(guard.owner()).garbage.old == old(list).record(
                guard.owner(),
            ).garbage.old,
            final(list).record(guard.owner()).garbage.cur == old(list).record(
                guard.owner(),
            ).garbage.cur,
            final(list).record(guard.owner()).garbage.pending == old(list).record(
                guard.owner(),
            ).garbage.pending,
            final(list).record(guard.owner()).garbage.new@ == old(list).record(
                guard.owner(),
            ).garbage.new@ + old(list).order().subrange(
                old(self).passed(),
                old(self).passed() + old(list).order().len() - final(list).order().len(),
            ),
            // progress
            r matches Some(p) ==> final(self).passed() == old(self).passed() + 1 && p
                == final(list).order()[old(self).passed()] && final(list).record(p).active,
            r is None ==> final(self).passed() == old(self).passed() && final(list).order().len()
                == old(self).passed(),
    {
        let me: usize = guard.participant();
        let at: usize = self.at;
        let ghost pos = self.pos@;
        proof {
            if at != 0 {
                assert(list.listed(list.order@[pos - 1]));
                list.lemma_listed_is_live(heap, at);
            }
            if pos > 0 {
                assert(list.records.at(list.order@[pos - 1]).0.next@ == successor(
                    list.order@,
                    pos - 1,
                ));
            }
        }
        let mut cur: Option<Shared> = if self.is_first {
            self.is_first = false;
            list.load_link(at, MemOrder::Acquire, guard, heap)
        } else {
            list.load_link(at, MemOrder::Relaxed, guard, heap)
        };
        let ghost mut j: int = pos;
        loop
            invariant_except_break
                self.at == at,
                self.pos@ == pos,
                !self.is_first,
            invariant
                me == guard.owner(),
                old(self).pos@ == pos,
                old(self).at == at,
                0 <= pos <= list.order@.len(),
                j == pos,
                list.record(me).garbage.old == old(list).record(me).garbage.old,
                list.record(me).garbage.cur == old(list).record(me).garbage.cur,
                list.record(me).garbage.pending == old(list).record(me).garbage.pending,
                list.record(me).garbage.new@ =~= old(list).record(me).garbage.new@
                    + old(list).order@.subrange(
                    pos,
                    pos + old(list).order@.len() - list.order@.len(),
                ),
                list.order@ =~= old(list).order@.subrange(0, pos) + old(list).order@.subrange(
                    pos + old(list).order@.len() - list.order@.len(),
                    old(list).order@.len() as int,
                ),
                forall|i: int|
                    pos <= i < pos + old(list).order@.len() - list.order@.len()
                        ==> !old(list).record(#[trigger] old(list).order@[i]).active
                        && !list.listed(
                        old(list).order@[i],
                    ) && heap.is_retired(old(list).order@[i]),
                at == (if pos == 0 {
                    0
                } else {
                    list.order@[pos - 1]
                }),
                crate::mem::epoch::opt_addr(cur) == (if j < list.order@.len() {
                    list.order@[j]
                } else {
                    0
                }),
                list.wf(heap, global),
                heap.wf(),
                list.listed(me),
                list.record(me).pinned(),
                list.order@.len() <= old(list).order@.len(),
                forall|i: int| 0 <= i < pos ==> list.order@[i] == old(list).order@[i],
                forall|b: usize| (#[trigger] list.listed(b)) ==> old(list).listed(b)
                    && list.record(b).era() == old(list).record(b).era()
                    && list.record(b).in_critical == old(list).record(
                        b,
                    ).in_critical && list.record(b).active == old(list).record(b).active
                        && list.record(b).try_gc == old(list).record(b).try_gc && (b != me
                            ==> list.record(b).garbage == old(list).record(b).garbage),
                forall|b: usize| (#[trigger] old(list).listed(b)) && !list.listed(b)
                    ==> !old(list).record(b).active,
                forall|a: usize| (#[trigger] old(heap).same_cell(heap, a)) || (old(list).listed(a)
                    && !list.listed(a)
                        && heap.is_retired(a) && heap.kind(a) == RECORD_KIND && heap.holder(a)
                        == Holder::Local(me) && heap.stamp(a) == global),
            ensures
                list.wf(heap, global),
                heap.wf(),
                self.valid(list),
                list.listed(me),
                forall|i: int| 0 <= i < pos ==> list.order@[i] == old(list).order@[i],
                forall|b: usize| (#[trigger] list.listed(b)) ==> old(list).listed(b)
                    && list.record(b).era() == old(list).record(b).era()
                    && list.record(b).in_critical == old(list).record(
                        b,
                    ).in_critical && list.record(b).active == old(list).record(b).active
                        && list.record(b).try_gc == old(list).record(b).try_gc && (b != me
                            ==> list.record(b).garbage == old(list).record(b).garbage),
                forall|b: usize| (#[trigger] old(list).listed(b)) && !list.listed(b)
                    ==> !old(list).record(b).active,
                forall|a: usize| (#[trigger] old(heap).same_cell(heap, a)) || (old(list).listed(a)
                    && !list.listed(a)
                        && heap.is_retired(a) && heap.kind(a) == RECORD_KIND && heap.holder(a)
                        == Holder::Local(me) && heap.stamp(a) == global),
                list.order@.len() <= old(list).order@.len(),
                list.order@ =~= old(list).order@.subrange(0, pos) + old(list).order@.subrange(
                    pos + old(list).order@.len() - list.order@.len(),
                    old(list).order@.len() as int,
                ),
                forall|i: int|
                    pos <= i < pos + old(list).order@.len() - list.order@.len()
                        ==> !old(list).record(#[trigger] old(list).order@[i]).active
                        && !list.listed(
                        old(list).order@[i],
                    ) && heap.is_retired(old(list).order@[i]),
                list.record(me).garbage.old == old(list).record(me).garbage.old,
                list.record(me).garbage.cur == old(list).record(me).garbage.cur,
                list.record(me).garbage.pending == old(list).record(me).garbage.pending,
                list.record(me).garbage.new@ =~= old(list).record(me).garbage.new@
                    + old(list).order@.subrange(
                    pos,
                    pos + old(list).order@.len() - list.order@.len(),
                ),
                cur matches Some(p) ==> self.pos@ == pos + 1 && p.addr() == list.order@[pos]
                    && list.record(p.addr()).active,
                cur is None ==> self.pos@ == pos && list.order@.len() == pos,
            decreases list.order@.len() - j,
        {
            let n: Shared = match cur {
                Some(n) => n,
                None => {
                    break ;
                },
            };
            let a: usize = n.as_raw();
            proof {
                assert(j < list.order@.len());
                assert(list.listed(list.order@[j]));
                list.lemma_listed_is_live(heap, a);
                assert(list.records.at(list.order@[j]).0.next@ == successor(list.order@, j));
                if at != 0 {
                    assert(list.listed(list.order@[pos - 1]));
                    list.lemma_listed_is_live(heap, at);
                    assert(list.records.at(list.order@[pos - 1]).0.next@ == successor(
                        list.order@,
                        pos - 1,
                    ));
                }
            }
            let active: bool = list.records.get(n, heap).0.active;
            if !active {
                let nxt: Option<Shared> = list.records.get(n, heap).0.next.load(
                    MemOrder::Relaxed,
                    guard,
                );
                if !list.cleaning {
                    // become the one traversal that may take records off
                    let ghost prev = *list;
                    list.cleaning = true;
                    let ghost before = *list;
                    let ghost heap0 = *heap;
                    proof {
                        assert forall|i: int| 0 <= i < before.order@.len() implies (
                        #[trigger] before.record(before.order@[i])).inv(
                            &heap0,
                            before.order@[i],
                            global,
                        ) by {
                            assert(prev.record(prev.order()[i]).inv(&heap0, prev.order()[i],
                                global));
                        }
                    }
                    if list.cas_link(at, Some(n), nxt, MemOrder::Relaxed) {
                        // hand the record to the walker as garbage
                        proof {
                            assert(before.listed(me));
                            let k = choose|k: int|
                                0 <= k < before.order@.len() && before.order@[k] == me;
                            assert(before.records.has(before.order@[k]));
                            assert(before.record(before.order@[k]).inv(&heap0, me, global));
                            assert(before.record(before.order@[j]).inv(&heap0, a, global));
                            assert(me != a);
                            assert(before.records.same_at(&list.records, me) || me == at);
                            assert(before.records.has(before.order@[j]));
                            if j > 0 {
                                assert(before.order@[j - 1] != before.order@[j]);
                            }
                            assert(before.records.same_at(&list.records, a));
                        }
                        let ghost cut = *list;
                        let mut gone = list.records.take(a);
                        let ghost marking = list.records;
                        gone.0.unlinked = true;
                        list.records.put(a, gone);
                        let ghost marked = list.records;
                        proof {
                            assert(cut.records.same_at(&marking, me));
                            assert(marking.same_at(&marked, me));
                        }
                        let mut node = list.records.take(me);
                        let ghost taken = list.records;
                        node.0.reclaim(a, heap, Ghost(me), Ghost(global));
                        list.records.put(me, node);
                        list.cleaning = false;
                        proof {
                            list.order = Ghost(before.order@.remove(j));
                            let gone_before = old(list).order@.len() - before.order@.len();
                            assert(before.order@[j] == old(list).order@[pos + gone_before]);
                            assert(list.order@ =~= old(list).order@.subrange(0,
                                pos) + old(list).order@.subrange(
                                pos + gone_before + 1,
                                old(list).order@.len() as int,
                            ));
                            assert(list.record(me).garbage.new@ == before.record(
                                me,
                            ).garbage.new@.push(a) && list.record(me).garbage.old
                                == before.record(me).garbage.old && list.record(me).garbage.cur
                                == before.record(me).garbage.cur && list.record(
                                me,
                            ).garbage.pending == before.record(me).garbage.pending) by {
                                assert(before.records.same_at(&cut.records, me) || me == at);
                                assert(cut.records.same_at(&marking, me));
                                assert(marking.same_at(&marked, me));
                            }
                            assert(old(list).order@.subrange(pos, pos + gone_before + 1)
                                =~= old(list).order@.subrange(pos, pos + gone_before).push(a));
                            assert(!old(list).record(a).active) by {
                                assert(before.listed(a));
                                assert(prev.listed(a));
                            }
                            assert forall|b: usize| #[trigger] list.listed(b) implies b != a
                                && before.listed(b) by {
                                let i = choose|i: int|
                                    0 <= i < list.order@.len() && list.order@[i] == b;
                                if i < j {
                                    assert(before.order@[i] == b);
                                    assert(before.order@[i] != before.order@[j]);
                                } else {
                                    assert(before.order@[i + 1] == b);
                                    assert(before.order@[i + 1] != before.order@[j]);
                                }
                            }
                            assert forall|b: usize| b != me && b != a implies cut.records.same_at(
                                &list.records,
                                b,
                            ) by {
                                assert(cut.records.same_at(&marking, b));
                                assert(marking.same_at(&marked, b));
                                assert(marked.same_at(&taken, b));
                                assert(taken.same_at(&list.records, b));
                            }
                            assert(cut.records.same_at(&marking, me));
                            assert(marking.same_at(&marked, me));
                            Self::lemma_unlinked(&before, &cut, list, &heap0, heap, at, me, a, j,
                                global);
                            assert forall|i: int| pos <= i < pos + gone_before + 1
                                implies !old(list).record(#[trigger] old(list).order@[i]).active
                                && !list.listed(
                                old(list).order@[i],
                            ) && heap.is_retired(old(list).order@[i]) by {
                                let x = old(list).order@[i];
                                if i < pos + gone_before {
                                    assert(!prev.listed(x));
                                    assert(heap0.is_retired(x));
                                    assert(prev.listed(a));
                                    assert(heap0.same_cell(heap, x));
                                    if list.listed(x) {
                                        assert(before.listed(x));
                                    }
                                }
                            }
                            assert forall|b: usize| (#[trigger] list.listed(b))
                                implies old(list).listed(b) && list.record(b).era()
                                == old(list).record(b).era()
                                && list.record(b).in_critical == old(list).record(b).in_critical
                                && list.record(b).active == old(list).record(b).active
                                && list.record(b).try_gc == old(list).record(b).try_gc && (b != me
                                    ==> list.record(b).garbage == old(list).record(b).garbage) by {
                                assert(before.listed(b));
                                assert(prev.listed(b));
                            }
                            assert forall|b: usize|
                                (#[trigger] old(list).listed(b)) && !list.listed(b)
                                    implies !old(list).record(b).active by {
                                if prev.listed(b) {
                                    assert(before.listed(b));
                                }
                            }
                            assert forall|c: usize|
                                (#[trigger] old(heap).same_cell(heap, c)) || (old(list).listed(c)
                                    && !list.listed(c) && heap.is_retired(c) && heap.kind(c)
                                    == RECORD_KIND && heap.holder(c) == Holder::Local(me)
                                    && heap.stamp(c) == global) by {
                                if c == a {
                                    assert(before.order@[j] == a);
                                    assert(before.listed(a));
                                    assert(prev.listed(a));
                                    assert(old(list).listed(a));
                                    assert(heap0.kind(a) == RECORD_KIND) by {
                                        prev.lemma_listed_is_live(&heap0, a);
                                    }
                                } else {
                                    assert(heap0.same_cell(heap, c));
                                    if old(heap).same_cell(&heap0, c) {
                                    } else {
                                        assert(!prev.listed(c));
                                        if list.listed(c) {
                                            assert(before.listed(c));
                                            assert(prev.listed(c));
                                        }
                                    }
                                }
                            }
                        }
                    } else {
                        list.cleaning = false;
                        proof {
                            assert(false);
                        }
                    }
                } else {
                    // no other walk is taking a record off
                    proof {
                        assert(false);
                    }
                }
                cur = nxt;
            } else {
                self.at = a;
                proof {
                    self.pos = Ghost(j + 1);
                }
                break ;
            }
        }
        match cur {
            Some(p) => Some(p.as_raw()),
            None => None,
        }
    }

    /// The setting in which the record `a` at position `j` is taken off the
    /// list by the participant `me`: `before` is the list in order (but
    /// for the flag), `cut` is what it is once the link at `at` skips `a`,
    /// and `after` what it is once `me` holds `a` as garbage.
    spec fn unlinking(
        before: &Participants,
        cut: &Participants,
        after: &Participants,
        h0: &Heap,
        h1: &Heap,
        at: usize,
        me: usize,
        a: usize,
        j: int,
        global: int,
    ) -> bool {
        &&& 0 <= j < before.order@.len()
        &&& a == before.order@[j]
        &&& at == (if j == 0 {
            0
        } else {
            before.order@[j - 1]
        })
        &&& before.chained(h0)
        &&& forall|i: int|
            0 <= i < before.order@.len() ==> (#[trigger] before.record(before.order@[i])).inv(
                h0,
                before.order@[i],
                global,
            )
        &&& h0.wf()
        &&& before.listed(me)
        &&& me != a
        &&& !before.record(a).active
        &&& cut.link(at) == successor(before.order@, j)
        &&& cut.records.kind() == before.records.kind()
        &&& at != 0 ==> cut.head == before.head && cut.records.has(at) && (Participant {
            next: before.records.at(at).0.next,
            ..cut.records.at(at).0
        }) == before.records.at(at).0
        &&& at == 0 ==> cut.records == before.records
        &&& forall|b: usize| b != at ==> before.records.same_at(&cut.records, b)
        &&& after.head == cut.head
        &&& !after.cleaning
        &&& after.order@ == before.order@.remove(j)
        &&& after.records.kind() == cut.records.kind()
        &&& after.records.has(me)
        &&& forall|b: usize| b != me && b != a ==> cut.records.same_at(&after.records, b)
        &&& after.records.at(me).0.inv(h1, me, global)
        &&& after.records.at(me).0.next == cut.records.at(me).0.next
        &&& after.records.at(me).0.era() == cut.records.at(me).0.era()
        &&& after.records.at(me).0.in_critical == cut.records.at(me).0.in_critical
        &&& after.records.at(me).0.active == cut.records.at(me).0.active
        &&& after.records.at(me).0.try_gc == cut.records.at(me).0.try_gc
        &&& h1.wf()
        &&& h1.is_retired(a)
        &&& forall|b: usize| b != a ==> h0.same_cell(h1, b)
    }

    /// What holds of the record at position `i` of the list after the
    /// record `a` was taken off it.
    proof fn lemma_survivor(
        before: &Participants,
        cut: &Participants,
        after: &Participants,
        h0: &Heap,
        h1: &Heap,
        at: usize,
        me: usize,
        a: usize,
        j: int,
        global: int,
        i: int,
    )
        requires
            Self::unlinking(before, cut, after, h0, h1, at, me, a, j, global),
            0 <= i < after.order@.len(),
        ensures
            after.order@[i] == before.order@[if i < j {
                i
            } else {
                i + 1
            }],
            after.order@[i] != a,
            after.records.has(after.order@[i]),
            h1.is_live(after.order@[i]),
            h1.kind(after.order@[i]) == RECORD_KIND,
            after.record(after.order@[i]).era() == before.record(after.order@[i]).era(),
            after.record(after.order@[i]).in_critical == before.record(
                after.order@[i],
            ).in_critical,
            after.record(after.order@[i]).active == before.record(after.order@[i]).active,
            after.record(after.order@[i]).try_gc == before.record(after.order@[i]).try_gc,
            after.order@[i] != me ==> after.record(after.order@[i]).garbage
                == before.record(after.order@[i]).garbage,
            after.records.at(after.order@[i]).0.next@ == successor(after.order@, i),
            after.record(after.order@[i]).inv(h1, after.order@[i], global),
    {
        let ord0 = before.order@;
        let ord1 = after.order@;
        let k = if i < j {
            i
        } else {
            i + 1
        };
        let b = ord0[k];
        assert(ord1[i] == b);
        assert(before.records.has(ord0[k]));
        assert(h0.is_live(ord0[k]));
        assert(b != a);
        assert(h0.same_cell(h1, b));
        assert(before.records.same_at(&cut.records, b) || b == at);
        assert(cut.records.same_at(&after.records, b) || b == me);
        assert(before.records.at(ord0[k]).0.next@ == successor(ord0, k));
        if b == at {
            assert(k == j - 1);
        }
        let r0 = before.record(ord0[k]);
        assert(r0.inv(h0, b, global));
        if b != me {
            r0.garbage.lemma_held_framed(h0, h1, Holder::Local(b), r0.era());
            assert(after.record(b).garbage == r0.garbage);
        }
    }

    /// Taking an inactive record off the list leaves the list in order,
    /// with every other record on it and as it was, but for the link
    /// before the record and the garbage of the participant that took it.
    proof fn lemma_unlinked(
        before: &Participants,
        cut: &Participants,
        after: &Participants,
        h0: &Heap,
        h1: &Heap,
        at: usize,
        me: usize,
        a: usize,
        j: int,
        global: int,
    )
        requires
            Self::unlinking(before, cut, after, h0, h1, at, me, a, j, global),
        ensures
            after.wf(h1, global),
            after.listed(me),
            !after.listed(a),
            forall|b: usize| (#[trigger] after.listed(b)) ==> before.listed(b)
                && after.record(b).era() == before.record(
                    b,
                ).era() && after.record(b).in_critical == before.record(b).in_critical
                    && after.record(b).active == before.record(b).active && after.record(b).try_gc
                    == before.record(b).try_gc && (b != me ==> after.record(b).garbage
                        == before.record(b).garbage),
            forall|b: usize| (#[trigger] before.listed(b)) && !after.listed(b) ==> b == a,
            forall|i: int| 0 <= i < j ==> after.order@[i] == before.order@[i],
            forall|i: int| j <= i < after.order@.len() ==> after.order@[i] == before.order@[i + 1],
    {
        let ord0 = before.order@;
        let ord1 = after.order@;
        assert forall|i: int| 0 <= i < ord1.len() implies after.records.has(#[trigger] ord1[i])
            && h1.is_live(ord1[i]) && h1.kind(ord1[i]) == RECORD_KIND by {
            Self::lemma_survivor(before, cut, after, h0, h1, at, me, a, j, global, i);
        }
        assert forall|i: int| 0 <= i < ord1.len() implies (#[trigger] after.records.at(
            ord1[i],
        )).0.next@ == successor(ord1, i) by {
            Self::lemma_survivor(before, cut, after, h0, h1, at, me, a, j, global, i);
        }
        assert forall|i: int| 0 <= i < ord1.len() implies (#[trigger] after.record(ord1[i])).inv(
            h1,
            ord1[i],
            global,
        ) by {
            Self::lemma_survivor(before, cut, after, h0, h1, at, me, a, j, global, i);
        }
        assert(distinct(ord1));
        if j == 0 {
            assert(after.head@ == successor(ord0, 0));
        }
        assert(after.chained(h1));
        assert(after.listed(me)) by {
            let k = choose|k: int| 0 <= k < ord0.len() && ord0[k] == me;
            if k < j {
                assert(ord1[k] == me);
            } else {
                assert(ord1[k - 1] == me);
            }
        }
        assert forall|b: usize| (#[trigger] after.listed(b)) implies before.listed(b)
            && after.record(b).era() == before.record(b).era() && after.record(b).in_critical
            == before.record(b).in_critical && after.record(b).active == before.record(b).active
            && after.record(b).try_gc == before.record(b).try_gc && (b != me
                ==> after.record(b).garbage == before.record(b).garbage) by {
            let i = choose|i: int| 0 <= i < ord1.len() && ord1[i] == b;
            Self::lemma_survivor(before, cut, after, h0, h1, at, me, a, j, global, i);
        }
        assert forall|b: usize| (#[trigger] before.listed(b)) && !after.listed(b) implies b == a
            by {
            let k = choose|k: int| 0 <= k < ord0.len() && ord0[k] == b;
            if k < j {
                assert(ord1[k] == b);
            } else if k > j {
                assert(ord1[k - 1] == b);
            }
        }
        if after.listed(a) {
            let i = choose|i: int| 0 <= i < ord1.len() && ord1[i] == a;
            Self::lemma_survivor(before, cut, after, h0, h1, at, me, a, j, global, i);
        }
    }
}

} // verus!
