//! The state that all participants share: the global epoch, the three
//! global garbage bags, the participant list and the allocator's books.

use crate::mem::epoch::garbage::{disjoint, distinct, held, lemma_holders_apart, Bag, ConcBag,
    Local};
use crate::mem::epoch::heap::{Heap, Holder, RECORD_KIND};
use crate::mem::epoch::participant::{lemma_word, lemma_word_apart, next_word, word_of};
use crate::mem::epoch::participant::Participant;
use crate::mem::epoch::participants::Participants;
use crate::mem::epoch::Guard;
use vstd::prelude::*;

verus! {

/// The latest epoch at or before `epoch` whose global bag is bag `g`: what
/// that bag holds was retired then or earlier.
pub open spec fn bag_bound(epoch: int, g: int) -> int {
    epoch - ((epoch - g) % 3)
}

/// The three global bags, each as its donated bags, after `bag` was donated
/// to bag `g`.
pub open spec fn donated(bags: Seq<Seq<Seq<usize>>>, g: int, bag: Seq<usize>) -> Seq<
    Seq<Seq<usize>>,
> {
    bags.update(g, bags[g].push(bag))
}

/// The index of the global bag for the epoch before `epoch`.
pub open spec fn bag_before(epoch: int) -> int {
    (epoch % 3 + 2) % 3
}

/// Global epoch state.
pub struct EpochState {
    /// The global epoch: what is kept of the count of advances.
    pub epoch: usize,
    /// The count of advances.
    pub age: Ghost<int>,
    /// Tells threads that the global bags hold garbage.
    pub do_global: bool,
    /// The global bags; the bag for epoch `e` is bag `e % 3`.
    pub garbage: Vec<ConcBag>,
    /// The participant list.
    pub participants: Participants,
    /// The allocator's books.
    pub heap: Heap,
}

impl EpochState {
    /// The global epoch as a count of advances.
    pub open spec fn era(&self) -> int {
        self.age@
    }

    /// The global bags are in order: there are three, no address is held
    /// twice, and each bag holds retired cells that are as old as the bag's
    /// index says.
    pub open spec fn bags_wf(&self) -> bool {
        &&& self.garbage@.len() == 3
        &&& forall|g: int|
            0 <= g < 3 ==> (#[trigger] self.garbage@[g]).separate() && self.garbage@[g].held_in(
                &self.heap,
                Holder::Global(g),
                bag_bound(self.era(), g),
            )
    }

    /// The state is in order.
    pub open spec fn wf(&self) -> bool {
        &&& self.heap.wf()
        &&& self.participants.wf(&self.heap, self.era())
        &&& self.bags_wf()
        &&& 0 <= self.era()
        &&& self.epoch == word_of(self.era())
    }

    /// Whether `me` is the record of a thread that takes part and has not
    /// left.
    pub open spec fn enrolled(&self, me: usize) -> bool {
        self.participants.listed(me) && self.participants.record(me).active
    }

    /// The record at `me`.
    pub open spec fn record(&self, me: usize) -> Participant {
        self.participants.record(me)
    }

    /// The number of guards that `me` holds.
    pub open spec fn in_critical(&self, me: usize) -> nat {
        self.participants.record(me).in_critical as nat
    }

    /// Whether `me` is in a critical section.
    pub open spec fn pinned(&self, me: usize) -> bool {
        self.participants.record(me).in_critical > 0
    }

    /// The local epoch of `me`.
    pub open spec fn local_epoch(&self, me: usize) -> int {
        self.participants.record(me).era()
    }

    /// Whether `me` finds another epoch than its own when it looks at the
    /// global one: what is kept of the two counts differs. That is so if
    /// the global epoch has moved on since `me` took it over, unless it
    /// has meanwhile gone once round the whole counter.
    pub open spec fn lags(&self, me: usize) -> bool {
        self.participants.record(me).epoch != self.epoch
    }

    /// The records other than `me` are on the list of `then` as they are
    /// on this one, with the same values.
    pub open spec fn others_same(&self, then: &EpochState, me: usize) -> bool {
        forall|b: usize|
            b != me && #[trigger] self.participants.listed(b) ==> then.participants.listed(b)
                && then.participants.record(b) == self.participants.record(b)
    }

    /// The state stays in order across a step of the participant `me` that
    /// keeps the epoch, the global bags and the shape of the list, changes
    /// no record but its own and no retired cell that another holds, and
    /// leaves its own record in order.
    pub proof fn lemma_wf_framed(&self, then: &EpochState, me: usize)
        requires
            self.wf(),
            then.heap.wf(),
            then.era() == self.era(),
            then.epoch == self.epoch,
            then.garbage == self.garbage,
            self.participants.same_shape(&then.participants),
            self.participants.listed(me),
            forall|a: usize|
                self.heap.is_retired(a) && self.heap.holder(a) != Holder::Local(me)
                    ==> #[trigger] self.heap.same_cell(&then.heap, a),
            forall|i: int|
                0 <= i < self.participants.order().len() ==> then.heap.is_live(
                    #[trigger] self.participants.order()[i],
                ) && then.heap.kind(self.participants.order()[i]) == RECORD_KIND,
            then.participants.stored(me),
            then.participants.record(me).inv(&then.heap, me, self.era()),
            then.participants.record(me).next == self.participants.record(me).next,
            forall|b: usize|
                b != me && #[trigger] self.participants.stored(b) ==> then.participants.stored(b)
                    && then.participants.record(b) == self.participants.record(b),
        ensures
            then.wf(),
            then.participants.order() == self.participants.order(),
            self.others_same(then, me),
    {
        let order = self.participants.order();
        self.participants.lemma_same_shape_order(&then.participants);
        assert forall|i: int| 0 <= i < order.len() implies then.participants.stored(
            #[trigger] order[i],
        ) && then.participants.record(order[i]).next == self.participants.record(order[i]).next by {
            let b = order[i];
            assert(self.participants.listed(b));
            self.participants.lemma_listed_is_live(&self.heap, b);
            if b != me {
                assert(self.participants.stored(b));
            }
        }
        self.participants.lemma_linked_framed(&then.participants, &self.heap, &then.heap);
        assert forall|i: int| 0 <= i < order.len() implies (#[trigger] then.participants.record(
            order[i],
        )).inv(&then.heap, order[i], then.era()) by {
            let b = order[i];
            assert(self.participants.listed(b));
            self.participants.lemma_listed_is_live(&self.heap, b);
            if b != me {
                assert(self.participants.stored(b));
                let r = self.participants.record(b);
                assert(r.inv(&self.heap, b, self.era()));
                r.garbage.lemma_held_framed(
                    &self.heap,
                    &then.heap,
                    Holder::Local(b),
                    r.era(),
                );
            }
        }
        assert forall|g: int| 0 <= g < 3 implies (#[trigger] then.garbage@[g]).separate()
            && then.garbage@[g].held_in(
            &then.heap,
            Holder::Global(g),
            bag_bound(then.era(), g),
        ) by {
            self.garbage@[g].lemma_held_framed(
                &self.heap,
                &then.heap,
                Holder::Global(g),
                bag_bound(self.era(), g),
            );
        }
        assert forall|b: usize| b != me && #[trigger] self.participants.listed(b) implies
            then.participants.listed(b) && then.participants.record(b) == self.participants.record(
            b,
        ) by {
            self.participants.lemma_listed_is_live(&self.heap, b);
            assert(self.participants.stored(b));
        }
    }

    /// Enrols a new thread and returns the address of its record.
    pub fn enroll(&mut self) -> (me: usize)
        requires
            old(self).wf(),
        ensures
            final(self).wf(),
            final(self).enrolled(me),
            me != 0,
            !old(self).heap.allocated(me),
            !old(self).participants.listed(me),
            final(self).record(me).fresh(),
            final(self).record(me).try_gc,
            final(self).participants.order() == seq![me] + old(self).participants.order(),
            old(self).others_same(final(self), me),
            final(self).era() == old(self).era(),
            final(self).epoch == old(self).epoch,
            final(self).do_global == old(self).do_global,
            final(self).garbage == old(self).garbage,
            final(self).heap.is_live(me),
            final(self).heap.kind(me) == RECORD_KIND,
            forall|b: usize| b != me ==> old(self).heap.same_cell(&final(self).heap, b),
    {
        let me = self.participants.enroll(&mut self.heap);
        proof {
            let order = self.participants.order();
            let before = old(self).participants.order();
            if old(self).participants.listed(me) {
                old(self).participants.lemma_listed_is_live(&old(self).heap, me);
            }
            assert(order[0] == me);
            assert forall|i: int| 0 <= i < order.len() implies (
            #[trigger] self.participants.record(order[i])).inv(
                &self.heap,
                order[i],
                self.era(),
            ) by {
                if i == 0 {
                    self.participants.record(me).lemma_fresh_inv(&self.heap, me, self.era());
                } else {
                    let b = before[i - 1];
                    assert(order[i] == b);
                    assert(old(self).participants.listed(b));
                    old(self).participants.lemma_listed_is_live(&old(self).heap, b);
                    let r = old(self).participants.record(b);
                    assert(r.inv(&old(self).heap, b, self.era()));
                    r.garbage.lemma_held_framed(
                        &old(self).heap,
                        &self.heap,
                        Holder::Local(b),
                        r.era(),
                    );
                }
            }
            assert forall|g: int| 0 <= g < 3 implies (#[trigger] self.garbage@[g]).separate()
                && self.garbage@[g].held_in(
                &self.heap,
                Holder::Global(g),
                bag_bound(self.era(), g),
            ) by {
                old(self).garbage@[g].lemma_held_framed(
                    &old(self).heap,
                    &self.heap,
                    Holder::Global(g),
                    bag_bound(self.era(), g),
                );
            }
            assert forall|b: usize| b != me && #[trigger] old(self).participants.listed(
                b,
            ) implies self.participants.listed(b) && self.participants.record(b)
                == old(self).participants.record(b) by {
                old(self).participants.lemma_listed_is_live(&old(self).heap, b);
                let i = choose|i: int| 0 <= i < before.len() && before[i] == b;
                assert(order[i + 1] == b);
            }
        }
        me
    }

    /// Enters a critical section of `me`. The first of nested sections
    /// takes over the global epoch and, if that has moved on, frees what
    /// `me` may free and rotates its bags. Says whether it did.
    pub fn enter(&mut self, me: usize) -> (collected: bool)
        requires
            old(self).wf(),
            old(self).enrolled(me),
            old(self).in_critical(me) < usize::MAX,
        ensures
            final(self).wf(),
            final(self).enrolled(me),
            final(self).in_critical(me) == old(self).in_critical(me) + 1,
            final(self).local_epoch(me) == (if old(self).pinned(me) {
                old(self).local_epoch(me)
            } else {
                old(self).era()
            }),
            final(self).record(me).try_gc == old(self).record(me).try_gc,
            collected == (!old(self).pinned(me) && old(self).lags(me)),
            !collected ==> final(self).heap == old(self).heap && final(self).record(me).garbage
                == old(self).record(me).garbage,
            collected ==> final(self).record(me).garbage.new@.len() == 0 && final(self).record(
                me,
            ).garbage.cur@ == old(self).record(me).garbage.new@ && final(self).record(
                me,
            ).garbage.old@ == old(self).record(me).garbage.cur@,
            // what the old bag held, and what had been put off, is freed,
            // as far as the budget goes
            collected ==> crate::mem::epoch::garbage::freed(
                &old(self).heap,
                &final(self).heap,
                old(self).stale_of(me),
            ) && final(self).record(me).garbage.pending() == old(self).record(
                me,
            ).garbage.stale().subrange(
                Participant::budget_covers(old(self).record(me).garbage),
                old(self).record(me).garbage.stale().len() as int,
            ),
            old(self).heap.reclaimed_from(
                &final(self).heap,
                Holder::Local(me),
                old(self).era() - 2,
            ),
            final(self).era() == old(self).era(),
            final(self).epoch == old(self).epoch,
            final(self).do_global == old(self).do_global,
            final(self).garbage == old(self).garbage,
            final(self).participants.order() == old(self).participants.order(),
            old(self).others_same(final(self), me),
    {
        proof {
            old(self).lemma_record_inv(me);
        }
        let mut p = self.participants.take_out(me);
        let ghost taken = self.participants;
        let collected = p.enter(self.epoch, &mut self.heap, Ghost(me), Ghost(self.age@));
        self.participants.put_back(me, p);
        proof {
            let gone = old(self).record(me).garbage.stale().subrange(
                0,
                Participant::budget_covers(old(self).record(me).garbage),
            );
            if collected {
                let stale = old(self).record(me).garbage.stale();
                assert(crate::mem::epoch::garbage::held(
                    &old(self).heap,
                    gone,
                    Holder::Local(me),
                    old(self).era() - 2,
                )) by {
                    assert forall|i: int| 0 <= i < gone.len() implies old(self).heap.is_retired(
                        #[trigger] gone[i],
                    ) && old(self).heap.holder(gone[i]) == Holder::Local(me)
                        && old(self).heap.stamp(gone[i]) <= old(self).era() - 2 by {
                        assert(gone[i] == stale[i]);
                    }
                }
                crate::mem::epoch::garbage::lemma_freed_is_reclaimed(
                    &old(self).heap,
                    &self.heap,
                    gone,
                    Holder::Local(me),
                    old(self).era() - 2,
                );
            }
            assert(old(self).heap.reclaimed_from(
                &self.heap,
                Holder::Local(me),
                old(self).era() - 2,
            ));
            assert forall|a: usize|
                (old(self).heap.is_retired(a) && old(self).heap.holder(a) != Holder::Local(me)) || (
                old(self).heap.is_live(a) && old(self).heap.kind(a) == RECORD_KIND)
                    implies #[trigger] old(self).heap.same_cell(&self.heap, a) by {}
            old(self).lemma_put_back(&taken, self, me);
        }
        collected
    }

    /// Enters a critical section of `me` without collecting: the first of
    /// nested sections takes over the global epoch.
    pub fn enter_nogc(&mut self, me: usize)
        requires
            old(self).wf(),
            old(self).enrolled(me),
            old(self).in_critical(me) < usize::MAX,
        ensures
            final(self).wf(),
            final(self).enrolled(me),
            final(self).in_critical(me) == old(self).in_critical(me) + 1,
            final(self).local_epoch(me) == (if old(self).pinned(me) {
                old(self).local_epoch(me)
            } else {
                old(self).era()
            }),
            final(self).record(me).try_gc == old(self).record(me).try_gc,
            final(self).record(me).garbage == old(self).record(me).garbage,
            final(self).heap == old(self).heap,
            final(self).era() == old(self).era(),
            final(self).epoch == old(self).epoch,
            final(self).do_global == old(self).do_global,
            final(self).garbage == old(self).garbage,
            final(self).participants.order() == old(self).participants.order(),
            old(self).others_same(final(self), me),
    {
        proof {
            old(self).lemma_record_inv(me);
        }
        let mut p = self.participants.take_out(me);
        let ghost taken = self.participants;
        p.enter_nogc(self.epoch, Ghost(&self.heap), Ghost(me), Ghost(self.age@));
        self.participants.put_back(me, p);
        proof {
            old(self).lemma_put_back(&taken, self, me);
        }
    }

    /// Leaves the current (nested) critical section of `me`.
    pub fn exit(&mut self, me: usize)
        requires
            old(self).wf(),
            old(self).participants.listed(me),
            old(self).pinned(me),
        ensures
            final(self).wf(),
            final(self).participants.listed(me),
            final(self).in_critical(me) == old(self).in_critical(me) - 1,
            final(self).record(me).era() == old(self).record(me).era(),
            final(self).record(me).active == old(self).record(me).active,
            final(self).record(me).try_gc == old(self).record(me).try_gc,
            final(self).record(me).garbage == old(self).record(me).garbage,
            final(self).heap == old(self).heap,
            final(self).era() == old(self).era(),
            final(self).epoch == old(self).epoch,
            final(self).do_global == old(self).do_global,
            final(self).garbage == old(self).garbage,
            final(self).participants.order() == old(self).participants.order(),
            old(self).others_same(final(self), me),
    {
        proof {
            old(self).lemma_record_inv(me);
        }
        let mut p = self.participants.take_out(me);
        let ghost taken = self.participants;
        p.exit();
        self.participants.put_back(me, p);
        proof {
            old(self).lemma_put_back(&taken, self, me);
        }
    }

    /// Takes charge, for `me`, of the live cell at `data`, which was
    /// unlinked from a structure: the cell is retired at the current global
    /// epoch and joins the newest bag of `me`.
    pub fn reclaim(&mut self, me: usize, data: usize)
        requires
            old(self).wf(),
            old(self).participants.listed(me),
            old(self).pinned(me),
            old(self).heap.is_live(data),
            old(self).heap.kind(data) != RECORD_KIND,
        ensures
            final(self).wf(),
            final(self).participants.listed(me),
            final(self).heap.is_retired(data),
            final(self).heap.kind(data) == old(self).heap.kind(data),
            final(self).heap.stamp(data) == old(self).era(),
            final(self).heap.holder(data) == Holder::Local(me),
            forall|b: usize| b != data ==> old(self).heap.same_cell(&final(self).heap, b),
            final(self).record(me).era() == old(self).record(me).era(),
            final(self).record(me).in_critical == old(self).record(me).in_critical,
            final(self).record(me).active == old(self).record(me).active,
            final(self).record(me).try_gc == old(self).record(me).try_gc,
            final(self).record(me).garbage.new@ == old(self).record(me).garbage.new@.push(data),
            final(self).record(me).garbage.old == old(self).record(me).garbage.old,
            final(self).record(me).garbage.cur == old(self).record(me).garbage.cur,
            final(self).record(me).garbage.pending == old(self).record(me).garbage.pending,
            final(self).era() == old(self).era(),
            final(self).epoch == old(self).epoch,
            final(self).do_global == old(self).do_global,
            final(self).garbage == old(self).garbage,
            final(self).participants.order() == old(self).participants.order(),
            old(self).others_same(final(self), me),
    {
        proof {
            old(self).lemma_record_inv(me);
        }
        let mut p = self.participants.take_out(me);
        let ghost taken = self.participants;
        p.reclaim(data, &mut self.heap, Ghost(me), Ghost(self.age@));
        self.participants.put_back(me, p);
        proof {
            assert forall|a: usize|
                old(self).heap.is_retired(a) || (old(self).heap.is_live(a) && old(self).heap.kind(
                    a,
                ) == RECORD_KIND) implies #[trigger] old(self).heap.same_cell(&self.heap, a) by {}
            old(self).lemma_put_back(&taken, self, me);
        }
    }

    /// The record of a participant on the list is in order and stored.
    pub proof fn lemma_record_inv(&self, me: usize)
        requires
            self.wf(),
            self.participants.listed(me),
        ensures
            self.participants.record(me).inv(&self.heap, me, self.era()),
            self.participants.stored(me),
            self.heap.is_live(me),
            self.heap.kind(me) == RECORD_KIND,
            me != 0,
    {
        self.participants.lemma_listed_is_live(&self.heap, me);
        let i = choose|i: int|
            0 <= i < self.participants.order().len() && self.participants.order()[i] == me;
        assert(self.participants.record(self.participants.order()[i]).inv(
            &self.heap,
            me,
            self.era(),
        ));
    }

    /// The state is in order again when `me` puts back its record, which
    /// it took out and worked on, if the work kept the record in order and
    /// its link as it was, and changed neither a live record cell nor a
    /// retired cell that another holds.
    pub proof fn lemma_put_back(&self, taken: &Participants, then: &EpochState, me: usize)
        requires
            self.wf(),
            self.participants.listed(me),
            self.participants.same_shape(taken),
            forall|b: usize|
                b != me && #[trigger] self.participants.stored(b) ==> taken.stored(b)
                    && taken.record(b) == self.participants.record(b),
            taken.same_shape(&then.participants),
            then.participants.stored(me),
            forall|b: usize|
                b != me && #[trigger] taken.stored(b) ==> then.participants.stored(b)
                    && then.participants.record(b) == taken.record(b),
            then.heap.wf(),
            then.era() == self.era(),
            then.epoch == self.epoch,
            then.garbage == self.garbage,
            forall|a: usize|
                (self.heap.is_retired(a) && self.heap.holder(a) != Holder::Local(me)) || (
                self.heap.is_live(a) && self.heap.kind(a) == RECORD_KIND)
                    ==> #[trigger] self.heap.same_cell(&then.heap, a),
            then.participants.record(me).inv(&then.heap, me, self.era()),
            then.participants.record(me).next == self.participants.record(me).next,
        ensures
            then.wf(),
            then.participants.order() == self.participants.order(),
            then.participants.listed(me),
            self.others_same(then, me),
    {
        self.participants.lemma_same_shape_trans(taken, &then.participants);
        assert forall|i: int| 0 <= i < self.participants.order().len() implies then.heap.is_live(
            #[trigger] self.participants.order()[i],
        ) && then.heap.kind(self.participants.order()[i]) == RECORD_KIND by {
            let b = self.participants.order()[i];
            assert(self.participants.listed(b));
            self.participants.lemma_listed_is_live(&self.heap, b);
            assert(self.heap.same_cell(&then.heap, b));
        }
        assert forall|b: usize| b != me && #[trigger] self.participants.stored(b) implies
            then.participants.stored(b) && then.participants.record(b)
            == self.participants.record(b) by {
            assert(taken.stored(b));
        }
        self.lemma_wf_framed(then, me);
    }

    /// Whether the participant `b` allows the epoch to advance: it is not
    /// pinned, or pinned at the current global epoch.
    pub open spec fn current(&self, b: usize) -> bool {
        !(self.record(b).in_critical > 0 && self.record(b).era() != self.era())
    }

    /// Whether every participant on the list allows the epoch to advance.
    pub open spec fn all_current(&self) -> bool {
        forall|b: usize| (#[trigger] self.participants.listed(b)) ==> self.current(b)
    }

    /// Whether the epoch can advance: every participant allows it. The
    /// counter wraps, so there is always a next epoch.
    pub open spec fn can_advance(&self) -> bool {
        self.all_current()
    }

    /// What one operation may do to the heap: free cells that were retired
    /// two epochs before the global epoch that it leaves, or earlier, and
    /// retire the records of participants that have left. Every other cell
    /// is as it was.
    pub open spec fn step(&self, then: &EpochState) -> bool {
        forall|a: usize|
            (#[trigger] self.heap.same_state(&then.heap, a)) || (self.heap.is_retired(a)
                && self.heap.stamp(a) + 2 <= then.era() && !then.heap.allocated(a)) || (
            self.heap.is_live(a) && self.heap.kind(a) == RECORD_KIND && self.participants.listed(a)
                && !self.record(a).active && !then.participants.listed(a) && then.heap.is_retired(
                a,
            ) && then.heap.kind(a) == RECORD_KIND && then.heap.stamp(a) == self.era())
    }

    /// What `step` says of the one cell at `a`: it is in the same state, or
    /// it was retired two epochs before the epoch of `then` and is freed,
    /// or it is the record of a thread that has left, taken off the list
    /// and retired.
    pub open spec fn step_at(&self, then: &EpochState, a: usize) -> bool {
        self.heap.same_state(&then.heap, a) || (self.heap.is_retired(a) && self.heap.stamp(a) + 2
            <= then.era() && !then.heap.allocated(a)) || (self.heap.is_live(a) && self.heap.kind(a)
            == RECORD_KIND && self.participants.listed(a) && !self.record(a).active
            && !then.participants.listed(a) && then.heap.is_retired(a) && then.heap.kind(a)
            == RECORD_KIND && then.heap.stamp(a) == self.era())
    }

    /// What one operation on a shared structure makes of the cell at `a`:
    /// a cell in `born` was not allocated, or was freed on the way, and is
    /// a live cell now; a cell in `gone` was live and is retired at the
    /// epoch of `then`; any other cell is as a step leaves it.
    pub open spec fn worked_at(
        &self,
        then: &EpochState,
        born: Seq<usize>,
        gone: Seq<usize>,
        a: usize,
    ) -> bool {
        if born.contains(a) {
            then.heap.is_live(a) && (!self.heap.allocated(a) || (self.heap.is_retired(a)
                && self.heap.stamp(a) + 2 <= then.era()))
        } else if gone.contains(a) {
            self.heap.is_live(a) && then.heap.is_retired(a) && then.heap.stamp(a) == then.era()
                && then.heap.kind(a) == self.heap.kind(a)
        } else {
            self.step_at(then, a)
        }
    }

    /// What one operation on a shared structure, which publishes the
    /// cells in `born` and unlinks those in `gone`, makes of the heap:
    /// besides these cells, nothing changes but what a step changes. So
    /// what another participant guards stays guarded across the
    /// operation.
    pub open spec fn worked(&self, then: &EpochState, born: Seq<usize>, gone: Seq<usize>) -> bool {
        forall|a: usize| #[trigger] self.worked_at(then, born, gone, a)
    }

    /// An operation consists of a pin, which is a step, and the work
    /// under the guard, which publishes and unlinks cells and leaves every
    /// other cell, the epoch and the list as they are.
    pub proof fn lemma_worked(
        &self,
        pinned: &EpochState,
        then: &EpochState,
        me: usize,
        born: Seq<usize>,
        gone: Seq<usize>,
    )
        requires
            self.step(pinned),
            self.list_step(pinned, me),
            then.era() == pinned.era(),
            then.participants.order() == pinned.participants.order(),
            pinned.others_same(then, me),
            forall|a: usize|
                !born.contains(a) && !gone.contains(a) ==> #[trigger] pinned.heap.same_cell(
                    &then.heap,
                    a,
                ),
            forall|i: int|
                0 <= i < born.len() ==> !pinned.heap.allocated(#[trigger] born[i])
                    && then.heap.is_live(born[i]),
            forall|i: int|
                0 <= i < gone.len() ==> self.heap.is_live(#[trigger] gone[i]) && self.heap.kind(
                    gone[i],
                ) != RECORD_KIND && then.heap.is_retired(gone[i]) && then.heap.stamp(gone[i])
                    == then.era() && then.heap.kind(gone[i]) == self.heap.kind(gone[i]),
        ensures
            self.worked(then, born, gone),
            self.list_step(then, me),
    {
        assert forall|a: usize| #[trigger] self.worked_at(then, born, gone, a) by {
            if self.heap.same_state(&pinned.heap, a) {
            } else {
            }
            if born.contains(a) {
                let i = choose|i: int| 0 <= i < born.len() && born[i] == a;
                assert(!pinned.heap.allocated(born[i]));
            } else if gone.contains(a) {
                let i = choose|i: int| 0 <= i < gone.len() && gone[i] == a;
                assert(self.heap.is_live(gone[i]));
            } else {
                assert(pinned.heap.same_cell(&then.heap, a));
                assert(then.participants.listed(a) == pinned.participants.listed(a));
            }
        }
        assert forall|b: usize| (#[trigger] then.participants.listed(b))
            implies self.participants.listed(b) && (b != me ==> then.record(b).era()
            == self.record(b).era() && then.record(b).in_critical == self.record(b).in_critical
            && then.record(b).active == self.record(b).active && then.record(b).try_gc
            == self.record(b).try_gc && then.record(b).garbage == self.record(b).garbage) by {
            assert(pinned.participants.listed(b));
        }
        assert forall|b: usize|
            (#[trigger] self.participants.listed(b)) && !then.participants.listed(
                b,
            ) implies !self.record(b).active by {
            assert(!pinned.participants.listed(b));
        }
        assert(pinned.participants.listed(me));
    }

    /// A cell that another participant guards stays guarded across an
    /// operation on a shared structure, if the operation does not publish
    /// it: if it unlinks the cell, it retires it at an epoch that is not
    /// before the one at which the other is pinned.
    pub proof fn lemma_guarded_survives_work(
        &self,
        then: &EpochState,
        g: &Guard,
        born: Seq<usize>,
        gone: Seq<usize>,
        a: usize,
    )
        requires
            self.wf(),
            then.wf(),
            self.worked(then, born, gone),
            g.covers(self),
            g.covers(then),
            self.guards(g.owner(), a),
            !born.contains(a),
        ensures
            then.guards(g.owner(), a),
    {
        assert(self.worked_at(then, born, gone, a));
        self.lemma_pinned_bounds_epoch(g.owner());
        then.lemma_pinned_bounds_epoch(g.owner());
    }

    /// What one operation of `me` may do to the participant list: take
    /// records of threads that have left off it. The records that stay
    /// keep their place, and those of others all but their link.
    /// What a walk of `me` over the list makes of the heap and of the
    /// garbage of `me`: nothing is freed; the records taken off the list
    /// are retired at the global epoch and join the newest bag of `me`;
    /// every other cell and every other bag of `me` is as it was.
    pub open spec fn walked(&self, then: &EpochState, me: usize) -> bool {
        let was = self.record(me).garbage;
        let now = then.record(me).garbage;
        &&& forall|a: usize|
            (#[trigger] self.heap.same_cell(&then.heap, a)) || (self.participants.listed(a)
                && !then.participants.listed(a) && then.heap.is_retired(a) && then.heap.kind(a)
                == RECORD_KIND && then.heap.holder(a) == Holder::Local(me) && then.heap.stamp(a)
                == self.era())
        &&& now.old == was.old
        &&& now.cur == was.cur
        &&& now.pending == was.pending
        &&& then.participants.order().len() <= self.participants.order().len()
        &&& now.new@.len() == was.new@.len() + self.participants.order().len()
            - then.participants.order().len()
        &&& now.new@.subrange(0, was.new@.len() as int) =~= was.new@
        &&& forall|i: int|
            was.new@.len() <= i < now.new@.len() ==> self.participants.listed(
                #[trigger] now.new@[i],
            ) && !then.participants.listed(now.new@[i])
    }

    /// The list of `then` is that of `self` without the records of the
    /// threads that have left, and each record that went is a retired
    /// cell.
    pub open spec fn cleaned(&self, then: &EpochState) -> bool {
        &&& forall|b: usize| #[trigger]
            then.participants.listed(b) <==> self.participants.listed(b) && self.record(b).active
        &&& forall|b: usize| #[trigger] then.participants.listed(b) ==> then.record(b).active
        &&& self.gone_retired(then)
    }

    /// Each record that is on the list of `self` and not on that of `then`
    /// is a retired cell in `then`.
    pub open spec fn gone_retired(&self, then: &EpochState) -> bool {
        forall|b: usize|
            (#[trigger] self.participants.listed(b)) && !then.participants.listed(b)
                ==> then.heap.is_retired(b) && then.heap.kind(b) == RECORD_KIND
    }

    pub open spec fn list_step(&self, then: &EpochState, me: usize) -> bool {
        &&& then.participants.listed(me)
        &&& forall|b: usize|
            (#[trigger] then.participants.listed(b)) ==> self.participants.listed(b) && (b != me
                ==> then.record(b).era() == self.record(b).era() && then.record(b).in_critical
                == self.record(b).in_critical && then.record(b).active == self.record(b).active
                && then.record(b).try_gc == self.record(b).try_gc && then.record(b).garbage
                == self.record(b).garbage)
        &&& forall|b: usize|
            (#[trigger] self.participants.listed(b)) && !then.participants.listed(b)
                ==> !self.record(b).active
    }

    /// Whether a bag was donated to a global bag since that bag was last
    /// collected.
    pub fn has_garbage(&self) -> (r: bool)
        requires
            self.garbage@.len() == 3,
        ensures
            r == (self.garbage@[0]@.len() > 0 || self.garbage@[1]@.len() > 0
                || self.garbage@[2]@.len() > 0),
    {
        self.garbage[0].has_garbage() || self.garbage[1].has_garbage()
            || self.garbage[2].has_garbage()
    }

    /// Sets the flag that tells threads of global garbage to what
    /// `has_garbage` says.
    pub fn set_garbage_flag(&mut self)
        requires
            old(self).garbage@.len() == 3,
        ensures
            final(self).do_global == (old(self).garbage@[0]@.len() > 0
                || old(self).garbage@[1]@.len() > 0 || old(self).garbage@[2]@.len() > 0),
            final(self).era() == old(self).era(),
            final(self).epoch == old(self).epoch,
            final(self).garbage == old(self).garbage,
            final(self).participants == old(self).participants,
            final(self).heap == old(self).heap,
    {
        let has_garbage = self.has_garbage();
        let garbage_flag = self.do_global;
        if has_garbage && !garbage_flag {
            self.do_global = true;
        } else if !has_garbage && garbage_flag {
            self.do_global = false;
        }
    }

    /// Walks the participant list and says whether every participant on
    /// it allows the epoch to advance. Records of threads that have left
    /// are taken off the list on the way and handed to the walker as
    /// garbage. The walk ends at the first participant that is pinned at
    /// another epoch.
    pub fn scan(&mut self, guard: &Guard) -> (quiet: bool)
        requires
            old(self).wf(),
            old(self).participants.listed(guard.owner()),
            old(self).pinned(guard.owner()),
        ensures
            final(self).wf(),
            quiet == old(self).all_current(),
            quiet ==> final(self).all_current(),
            // a walk that came to the end has left only living threads on
            // the list
            quiet ==> old(self).cleaned(final(self)),
            old(self).gone_retired(final(self)),
            old(self).walked(final(self), guard.owner()),
            final(self).era() == old(self).era(),
            final(self).epoch == old(self).epoch,
            final(self).do_global == old(self).do_global,
            final(self).garbage == old(self).garbage,
            old(self).step(final(self)),
            old(self).list_step(final(self), guard.owner()),
            final(self).record(guard.owner()).era() == old(self).record(guard.owner()).era(),
            final(self).record(guard.owner()).in_critical == old(self).record(
                guard.owner(),
            ).in_critical,
            final(self).record(guard.owner()).active == old(self).record(guard.owner()).active,
            final(self).record(guard.owner()).try_gc == old(self).record(guard.owner()).try_gc,
    {
        let ghost me = guard.owner();
        let cur_epoch: usize = self.epoch;
        let mut it = self.participants.iter(guard);
        let mut quiet: bool = true;
        loop
            invariant_except_break
                quiet,
                forall|i: int|
                    0 <= i < it.passed() ==> self.current(
                        #[trigger] self.participants.order()[i],
                    ),
                forall|i: int|
                    0 <= i < it.passed() ==> self.record(
                        #[trigger] self.participants.order()[i],
                    ).active,
            invariant
                old(self).gone_retired(self),
                old(self).walked(self, me),
                me == guard.owner(),
                cur_epoch == self.epoch,
                self.wf(),
                it.valid(&self.participants),
                self.participants.listed(me),
                self.pinned(me),
                self.era() == old(self).era(),
                self.epoch == old(self).epoch,
                self.do_global == old(self).do_global,
                self.garbage == old(self).garbage,
                old(self).wf(),
                old(self).step(self),
                old(self).list_step(self, me),
                self.record(me).era() == old(self).record(me).era(),
                self.record(me).in_critical == old(self).record(me).in_critical,
                self.record(me).active == old(self).record(me).active,
                self.record(me).try_gc == old(self).record(me).try_gc,
            ensures
                quiet == old(self).all_current(),
                quiet ==> self.all_current(),
                quiet ==> old(self).cleaned(self),
            decreases self.participants.order().len() - it.passed(),
        {
            let ghost before = *self;
            let ghost passed = it.passed();
            proof {
                it.lemma_valid_bounds(&self.participants);
            }
            let found = it.next(
                &mut self.participants,
                &mut self.heap,
                guard,
                Ghost(self.age@),
            );
            proof {
                it.lemma_valid_bounds(&self.participants);
                before.lemma_walked(self, me);
                before.lemma_step_then(old(self), self, me);
                let was = before.participants.order();
                let now = self.participants.order();
                let gone = was.len() - now.len();
                assert(old(self).walked(self, me)) by {
                    let g0 = old(self).record(me).garbage;
                    let g1 = before.record(me).garbage;
                    let g2 = self.record(me).garbage;
                    assert(g2.new@ == g1.new@ + was.subrange(passed, passed + gone));
                    assert(g2.new@.subrange(0, g0.new@.len() as int) =~= g0.new@) by {
                        assert(g1.new@.subrange(0, g0.new@.len() as int) == g0.new@);
                        assert forall|i: int| 0 <= i < g0.new@.len() implies g2.new@[i]
                            == g0.new@[i] by {
                            assert(g1.new@.subrange(0, g0.new@.len() as int)[i] == g1.new@[i]);
                        }
                    }
                    assert forall|i: int| g0.new@.len() <= i < g2.new@.len()
                        implies old(self).participants.listed(#[trigger] g2.new@[i])
                        && !self.participants.listed(
                        g2.new@[i],
                    ) by {
                        if i < g1.new@.len() {
                            assert(g2.new@[i] == g1.new@[i]);
                            assert(old(self).participants.listed(g1.new@[i]));
                            assert(!before.participants.listed(g1.new@[i]));
                        } else {
                            let k = passed + (i - g1.new@.len());
                            assert(g2.new@[i] == was[k]);
                            assert(before.participants.listed(was[k]));
                            assert(!self.participants.listed(was[k]));
                        }
                    }
                    assert forall|a: usize|
                        (#[trigger] old(self).heap.same_cell(&self.heap, a))
                            || (old(self).participants.listed(a) && !self.participants.listed(a)
                            && self.heap.is_retired(a) && self.heap.kind(a) == RECORD_KIND
                            && self.heap.holder(a) == Holder::Local(me) && self.heap.stamp(a)
                            == old(self).era()) by {
                        if before.heap.same_cell(&self.heap, a) {
                            if !old(self).heap.same_cell(&before.heap, a) {
                                assert(!before.participants.listed(a));
                            }
                        } else {
                            assert(before.participants.listed(a));
                            before.participants.lemma_listed_is_live(&before.heap, a);
                            assert(old(self).heap.same_cell(&before.heap, a));
                        }
                    }
                }
                assert forall|b: usize|
                    (#[trigger] old(self).participants.listed(b)) && !self.participants.listed(
                        b,
                    ) implies self.heap.is_retired(b) && self.heap.kind(b) == RECORD_KIND by {
                    if before.participants.listed(b) {
                        let i = choose|i: int| 0 <= i < was.len() && was[i] == b;
                        if i < passed {
                            assert(now[i] == b);
                        } else if i >= passed + gone {
                            assert(now[i - gone] == b);
                        }
                        assert(self.heap.is_retired(was[i]));
                        assert(!before.heap.same_cell(&self.heap, b)) by {
                            before.participants.lemma_listed_is_live(&before.heap, b);
                        }
                    } else {
                        assert(before.heap.is_retired(b));
                        assert(before.heap.same_cell(&self.heap, b));
                    }
                }
                assert forall|i: int| 0 <= i < passed implies self.record(
                    #[trigger] self.participants.order()[i],
                ).active by {
                    assert(now[i] == was[i]);
                    assert(self.participants.listed(now[i]));
                    assert(before.record(was[i]).active);
                    if now[i] == me {
                    }
                }
                assert forall|i: int| 0 <= i < it.passed() - 1 implies self.current(
                    #[trigger] self.participants.order()[i],
                ) by {
                    let b = self.participants.order()[i];
                    assert(self.participants.listed(b));
                    if i < passed {
                        assert(before.current(before.participants.order()[i]));
                    } else {
                        assert(!self.record(b).active);
                        self.lemma_record_inv(b);
                    }
                }
            }
            match found {
                None => {
                    proof {
                        assert forall|b: usize| (#[trigger] self.participants.listed(
                            b,
                        )) implies self.current(b) by {
                            let i = choose|i: int|
                                0 <= i < self.participants.order().len()
                                    && self.participants.order()[i] == b;
                            if i >= passed {
                                assert(!self.record(self.participants.order()[i]).active);
                                self.lemma_record_inv(b);
                            } else {
                                assert(self.current(self.participants.order()[i]));
                            }
                        }
                        old(self).lemma_quiet_before(self, me);
                        assert forall|b: usize| #[trigger]
                            self.participants.listed(b) implies self.record(b).active by {
                            let i = choose|i: int|
                                0 <= i < self.participants.order().len()
                                    && self.participants.order()[i] == b;
                            assert(self.record(self.participants.order()[i]).active);
                        }
                        assert forall|b: usize| #[trigger]
                            self.participants.listed(b) <==> old(self).participants.listed(b)
                                && old(self).record(b).active by {
                            if self.participants.listed(b) {
                                assert(old(self).participants.listed(b));
                                if b != me {
                                    assert(self.record(b).active == old(self).record(b).active);
                                }
                            }
                        }
                    }
                    break ;
                },
                Some(p) => {
                    proof {
                        assert(self.participants.listed(p));
                        self.lemma_record_inv(p);
                        if self.record(p).in_critical > 0 {
                            lemma_word_apart(self.record(p).era(), self.era());
                        }
                    }
                    let rec = self.participants.get(p, &self.heap);
                    if rec.in_critical > 0 && rec.epoch != cur_epoch {
                        quiet = false;
                        proof {
                            assert(old(self).participants.listed(p));
                            if p == me {
                            }
                            assert(!old(self).current(p));
                        }
                        break ;
                    }
                },
            }
        }
        quiet
    }

    /// One step of a walk over the participant list keeps the state in
    /// order.
    proof fn lemma_walked(&self, then: &EpochState, me: usize)
        requires
            self.wf(),
            then.heap.wf(),
            then.participants.wf(&then.heap, self.era()),
            then.era() == self.era(),
            then.epoch == self.epoch,
            then.garbage == self.garbage,
            forall|a: usize|
                (#[trigger] self.heap.same_cell(&then.heap, a)) || (self.participants.listed(a)
                    && !then.participants.listed(a) && then.heap.is_retired(a) && then.heap.kind(a)
                    == RECORD_KIND && then.heap.holder(a) == Holder::Local(me) && then.heap.stamp(a)
                    == self.era()),
        ensures
            then.wf(),
    {
        assert forall|g: int| 0 <= g < 3 implies (#[trigger] then.garbage@[g]).separate()
            && then.garbage@[g].held_in(
            &then.heap,
            Holder::Global(g),
            bag_bound(then.era(), g),
        ) by {
            assert forall|a: usize|
                self.heap.is_retired(a) && self.heap.holder(a) == Holder::Global(
                    g,
                ) implies #[trigger] self.heap.same_cell(&then.heap, a) by {
                if !self.heap.same_cell(&then.heap, a) {
                    self.participants.lemma_listed_is_live(&self.heap, a);
                }
            }
            self.garbage@[g].lemma_held_framed(
                &self.heap,
                &then.heap,
                Holder::Global(g),
                bag_bound(self.era(), g),
            );
        }
    }

    /// Steps compose: what held from `first` to `self` and what one step of
    /// a walk did from `self` to `then` hold together from `first` to
    /// `then`.
    proof fn lemma_step_then(&self, first: &EpochState, then: &EpochState, me: usize)
        requires
            first.wf(),
            self.wf(),
            first.step(self),
            first.list_step(self, me),
            self.era() == first.era(),
            self.epoch == first.epoch,
            then.era() == self.era(),
            then.epoch == self.epoch,
            then.participants.listed(me),
            self.record(me).active == first.record(me).active,
            forall|b: usize|
                (#[trigger] then.participants.listed(b)) ==> self.participants.listed(b)
                    && then.record(b).era() == self.record(b).era() && then.record(b).in_critical
                    == self.record(b).in_critical && then.record(b).active == self.record(b).active
                    && then.record(b).try_gc == self.record(b).try_gc && (b != me ==> then.record(
                    b,
                ).garbage == self.record(b).garbage),
            forall|b: usize|
                (#[trigger] self.participants.listed(b)) && !then.participants.listed(b)
                    ==> !self.record(b).active,
            forall|a: usize|
                (#[trigger] self.heap.same_cell(&then.heap, a)) || (self.participants.listed(a)
                    && !then.participants.listed(a) && then.heap.is_retired(a) && then.heap.kind(a)
                    == RECORD_KIND && then.heap.holder(a) == Holder::Local(me) && then.heap.stamp(a)
                    == self.era()),
        ensures
            first.step(then),
            first.list_step(then, me),
    {
        assert forall|b: usize| (#[trigger] then.participants.listed(b)) implies
            first.participants.listed(b) && (b != me ==> then.record(b).era() == first.record(
            b,
        ).era() && then.record(b).in_critical == first.record(b).in_critical && then.record(
            b,
        ).active == first.record(b).active && then.record(b).try_gc == first.record(b).try_gc
            && then.record(b).garbage == first.record(b).garbage) by {
            assert(self.participants.listed(b));
        }
        assert forall|b: usize|
            (#[trigger] first.participants.listed(b)) && !then.participants.listed(
                b,
            ) implies !first.record(b).active by {
            if self.participants.listed(b) {
                assert(!self.record(b).active);
                if b == me {
                }
            }
        }
        assert forall|a: usize|
            (#[trigger] first.heap.same_state(&then.heap, a)) || (first.heap.is_retired(a)
                && first.heap.stamp(a) + 2 <= then.era() && !then.heap.allocated(a)) || (
            first.heap.is_live(a) && first.heap.kind(a) == RECORD_KIND && first.participants.listed(
                a,
            ) && !first.record(a).active && !then.participants.listed(a) && then.heap.is_retired(a)
                && then.heap.kind(a) == RECORD_KIND && then.heap.stamp(a) == first.era()) by {
            if self.heap.same_cell(&then.heap, a) {
                if first.heap.same_state(&self.heap, a) {
                } else {
                    if then.participants.listed(a) {
                        assert(self.participants.listed(a));
                        self.participants.lemma_listed_is_live(&self.heap, a);
                    }
                }
            } else {
                assert(self.participants.listed(a));
                self.participants.lemma_listed_is_live(&self.heap, a);
                assert(first.heap.same_state(&self.heap, a));
                assert(first.participants.listed(a));
                assert(!self.record(a).active);
                assert(a != me);
            }
        }
    }

    /// If every participant allows the epoch to advance after a walk, then
    /// every one did before it.
    proof fn lemma_quiet_before(&self, then: &EpochState, me: usize)
        requires
            self.wf(),
            self.list_step(then, me),
            then.era() == self.era(),
            then.epoch == self.epoch,
            then.all_current(),
            then.record(me).era() == self.record(me).era(),
            then.record(me).in_critical == self.record(me).in_critical,
        ensures
            self.all_current(),
    {
        assert forall|b: usize| (#[trigger] self.participants.listed(b)) implies self.current(
            b,
        ) by {
            if then.participants.listed(b) {
                assert(then.current(b));
            } else {
                assert(!self.record(b).active);
                self.lemma_record_inv(b);
            }
        }
    }

    /// When every participant allows it, the state is in order at the
    /// next epoch as well.
    proof fn lemma_epoch_advanced(&self, then: &EpochState)
        requires
            self.wf(),
            self.all_current(),
            then.era() == self.era() + 1,
            then.epoch == word_of(then.era()),
            then.heap == self.heap,
            then.participants == self.participants,
            then.garbage == self.garbage,
        ensures
            then.wf(),
    {
        let order = self.participants.order();
        assert forall|i: int| 0 <= i < order.len() implies (#[trigger] then.participants.record(
            order[i],
        )).inv(&then.heap, order[i], then.era()) by {
            assert(self.participants.listed(order[i]));
            assert(self.current(order[i]));
            assert(self.participants.record(order[i]).inv(&self.heap, order[i], self.era()));
        }
        assert forall|g: int| 0 <= g < 3 implies (#[trigger] then.garbage@[g]).separate()
            && then.garbage@[g].held_in(
            &then.heap,
            Holder::Global(g),
            bag_bound(then.era(), g),
        ) by {
            let bag = self.garbage@[g];
            assert(bag.held_in(&self.heap, Holder::Global(g), bag_bound(self.era(), g)));
            assert(bag_bound(self.era(), g) <= bag_bound(then.era(), g));
            assert forall|b: int| 0 <= b < bag@.len() implies crate::mem::epoch::garbage::held(
                &then.heap,
                #[trigger] bag@[b],
                Holder::Global(g),
                bag_bound(then.era(), g),
            ) by {
                assert(crate::mem::epoch::garbage::held(
                    &self.heap,
                    bag@[b],
                    Holder::Global(g),
                    bag_bound(self.era(), g),
                ));
            }
        }
    }

    /// Brings the local epoch of `me`, which is behind, up to the global
    /// one: frees what `me` may free and rotates its bags.
    fn rotate(&mut self, me: usize)
        requires
            old(self).wf(),
            old(self).participants.listed(me),
            old(self).local_epoch(me) < old(self).era(),
        ensures
            final(self).wf(),
            final(self).participants.listed(me),
            final(self).local_epoch(me) == old(self).era(),
            final(self).record(me).in_critical == old(self).record(me).in_critical,
            final(self).record(me).active == old(self).record(me).active,
            final(self).record(me).try_gc == old(self).record(me).try_gc,
            final(self).record(me).garbage.old@ == old(self).record(me).garbage.cur@,
            final(self).record(me).garbage.cur@ == old(self).record(me).garbage.new@,
            final(self).record(me).garbage.new@.len() == 0,
            old(self).heap.reclaimed_from(
                &final(self).heap,
                Holder::Local(me),
                old(self).era() - 2,
            ),
            crate::mem::epoch::garbage::freed(
                &old(self).heap,
                &final(self).heap,
                old(self).record(me).garbage.stale().subrange(
                    0,
                    Participant::budget_covers(old(self).record(me).garbage),
                ),
            ),
            final(self).era() == old(self).era(),
            final(self).epoch == old(self).epoch,
            final(self).do_global == old(self).do_global,
            final(self).garbage == old(self).garbage,
            final(self).participants.order() == old(self).participants.order(),
            old(self).others_same(final(self), me),
    {
        proof {
            old(self).lemma_record_inv(me);
        }
        let mut p = self.participants.take_out(me);
        let ghost taken = self.participants;
        p.sync(self.epoch, &mut self.heap, Ghost(me), Ghost(self.age@));
        self.participants.put_back(me, p);
        proof {
            assert forall|a: usize|
                (old(self).heap.is_retired(a) && old(self).heap.holder(a) != Holder::Local(me)) || (
                old(self).heap.is_live(a) && old(self).heap.kind(a) == RECORD_KIND)
                    implies #[trigger] old(self).heap.same_cell(&self.heap, a) by {}
            old(self).lemma_put_back(&taken, self, me);
        }
    }

    /// Frees what the global bag `g` holds, which was retired two epochs
    /// ago or earlier.
    fn collect_global(&mut self, g: usize)
        requires
            old(self).wf(),
            g < 3,
            bag_bound(old(self).era(), g as int) == old(self).era() - 2,
        ensures
            final(self).wf(),
            final(self).garbage@.len() == 3,
            final(self).garbage@[g as int]@.len() == 0,
            forall|k: int| 0 <= k < 3 && k != g ==> final(self).garbage@[k]
                == old(self).garbage@[k],
            crate::mem::epoch::garbage::drained(
                &old(self).heap,
                &final(self).heap,
                old(self).garbage@[g as int]@,
                0,
            ),
            old(self).heap.reclaimed_from(
                &final(self).heap,
                Holder::Global(g as int),
                old(self).era() - 2,
            ),
            final(self).era() == old(self).era(),
            final(self).epoch == old(self).epoch,
            final(self).do_global == old(self).do_global,
            final(self).participants == old(self).participants,
    {
        let ghost bag = self.garbage@[g as int];
        proof {
            bag.lemma_held_allocated(&self.heap, Holder::Global(g as int), self.era() - 2);
        }
        self.garbage[g].collect(&mut self.heap);
        proof {
            bag.lemma_drained_is_reclaimed(
                &old(self).heap,
                &self.heap,
                Holder::Global(g as int),
                old(self).era() - 2,
            );
            let order = self.participants.order();
            assert forall|i: int| 0 <= i < order.len() implies self.heap.is_live(
                #[trigger] order[i],
            ) && self.heap.kind(order[i]) == RECORD_KIND by {
                assert(old(self).participants.listed(order[i]));
                old(self).participants.lemma_listed_is_live(&old(self).heap, order[i]);
                assert(old(self).heap.same_cell(&self.heap, order[i]));
            }
            assert forall|i: int| 0 <= i < order.len() implies self.participants.stored(
                #[trigger] order[i],
            ) && self.participants.record(order[i]).next == old(self).participants.record(
                order[i],
            ).next by {
                assert(old(self).participants.listed(order[i]));
                old(self).participants.lemma_listed_is_live(&old(self).heap, order[i]);
            }
            old(self).participants.lemma_same_shape_refl();
            old(self).participants.lemma_linked_framed(
                &self.participants,
                &old(self).heap,
                &self.heap,
            );
            assert forall|i: int| 0 <= i < order.len() implies (
            #[trigger] self.participants.record(order[i])).inv(
                &self.heap,
                order[i],
                self.era(),
            ) by {
                let r = old(self).participants.record(order[i]);
                assert(r.inv(&old(self).heap, order[i], self.era()));
                r.garbage.lemma_held_framed(
                    &old(self).heap,
                    &self.heap,
                    Holder::Local(order[i]),
                    r.era(),
                );
            }
            assert forall|k: int| 0 <= k < 3 implies (#[trigger] self.garbage@[k]).separate()
                && self.garbage@[k].held_in(
                &self.heap,
                Holder::Global(k),
                bag_bound(self.era(), k),
            ) by {
                if k != g {
                    assert(self.garbage@[k] == old(self).garbage@[k]);
                    old(self).garbage@[k].lemma_held_framed(
                        &old(self).heap,
                        &self.heap,
                        Holder::Global(k),
                        bag_bound(self.era(), k),
                    );
                }
            }
        }
    }

    /// Steps compose with reclamations: what held from `first` to `self`
    /// still holds once cells that were retired two epochs before the
    /// epoch of `then`, or earlier, are freed.
    pub proof fn lemma_step_reclaim(&self, first: &EpochState, then: &EpochState, holder: Holder)
        requires
            first.step(self),
            self.heap.reclaimed_from(&then.heap, holder, then.era() - 2),
            first.era() <= self.era() <= then.era() <= first.era() + 1,
            forall|b: usize|
                (#[trigger] then.participants.listed(b)) ==> self.participants.listed(b),
        ensures
            first.step(then),
    {
        assert forall|a: usize|
            (#[trigger] first.heap.same_state(&then.heap, a)) || (first.heap.is_retired(a)
                && first.heap.stamp(a) + 2 <= then.era() && !then.heap.allocated(a)) || (
            first.heap.is_live(a) && first.heap.kind(a) == RECORD_KIND && first.participants.listed(
                a,
            ) && !first.record(a).active && !then.participants.listed(a) && then.heap.is_retired(a)
                && then.heap.kind(a) == RECORD_KIND && then.heap.stamp(a) == first.era()) by {
            if self.heap.same_cell(&then.heap, a) {
                if first.heap.same_state(&self.heap, a) {
                } else {
                    if then.participants.listed(a) {
                        assert(self.participants.listed(a));
                    }
                }
            } else {
                if first.heap.same_state(&self.heap, a) {
                } else {
                }
            }
        }
    }

    /// The index of the global bag that an advance from this epoch frees:
    /// the bag of the epoch after the next, which is the one of two epochs
    /// ago.
    pub open spec fn bag_due(&self) -> int {
        (self.era() + 2) % 3
    }

    /// What the caller `me` frees of its own when the epoch advances: what
    /// it had put off and its old bag.
    pub open spec fn stale_of(&self, me: usize) -> Seq<usize> {
        self.record(me).garbage.stale().subrange(
            0,
            Participant::budget_covers(self.record(me).garbage),
        )
    }

    /// What a successful attempt of `me` to advance the epoch makes of the
    /// cell at `a`: it is freed if it was in the caller's old bag, among
    /// what the caller had put off, or in the global bag that is due;
    /// it is retired if it is a record that was taken off the list; else
    /// it is as it was.
    pub open spec fn swept_at(&self, then: &EpochState, me: usize, a: usize) -> bool {
        if self.stale_of(me).contains(a) || crate::mem::epoch::garbage::in_bags(
            self.garbage@[self.bag_due()]@,
            0,
            a,
        ) {
            !then.heap.allocated(a)
        } else {
            self.heap.same_cell(&then.heap, a) || (self.participants.listed(a)
                && !then.participants.listed(a) && then.heap.is_retired(a) && then.heap.kind(a)
                == RECORD_KIND && then.heap.holder(a) == Holder::Local(me) && then.heap.stamp(a)
                == self.era())
        }
    }

    /// What a successful attempt of `me` to advance the epoch makes of the
    /// garbage: the caller's old bag and the global bag that is due are
    /// freed and empty, the caller's bags are rotated, the records taken
    /// off the list are in what is now the caller's current bag, and the
    /// other two global bags are as they were.
    pub open spec fn swept(&self, then: &EpochState, me: usize) -> bool {
        let was = self.record(me).garbage;
        let now = then.record(me).garbage;
        &&& forall|a: usize| #[trigger] self.swept_at(then, me, a)
        &&& now.old@ == was.cur@
        &&& now.new@.len() == 0
        &&& then.participants.order().len() <= self.participants.order().len()
        &&& now.cur@.len() == was.new@.len() + self.participants.order().len()
            - then.participants.order().len()
        &&& now.cur@.subrange(0, was.new@.len() as int) =~= was.new@
        &&& forall|i: int|
            was.new@.len() <= i < now.cur@.len() ==> self.participants.listed(
                #[trigger] now.cur@[i],
            ) && !then.participants.listed(now.cur@[i])
        &&& then.garbage@.len() == 3
        &&& then.garbage@[self.bag_due()]@.len() == 0
        &&& forall|k: int|
            0 <= k < 3 && k != self.bag_due() ==> then.garbage@[k] == self.garbage@[k]
    }

    /// What an attempt of `me` to advance the epoch, which did so or not,
    /// makes of the state: the epoch advances by one exactly if every
    /// participant allowed it, and the local epoch of `me` follows. An
    /// attempt that fails frees nothing; one that succeeds frees the
    /// caller's old bag and the global bag that is due, and leaves only
    /// living threads on the list. Records that the walk took off the list
    /// are retired either way.
    pub open spec fn collected(&self, then: &EpochState, me: usize, advanced: bool) -> bool {
        &&& advanced == self.can_advance()
        &&& then.era() == (if advanced {
            self.era() + 1
        } else {
            self.era()
        })
        &&& then.local_epoch(me) == (if advanced {
            then.era()
        } else {
            self.local_epoch(me)
        })
        &&& then.record(me).in_critical == self.record(me).in_critical
        &&& then.record(me).active == self.record(me).active
        &&& then.record(me).try_gc == self.record(me).try_gc
        &&& self.step(then)
        &&& self.list_step(then, me)
        &&& self.gone_retired(then)
        &&& !advanced ==> self.walked(then, me) && then.garbage == self.garbage && then.do_global
            == self.do_global
        &&& advanced ==> self.cleaned(then) && self.swept(then, me)
    }

    /// The global bags once the garbage of `me`, whose local epoch is
    /// `local`, was moved to them: the old bag and what was put off went
    /// to the bag of the epoch before `local`, the current bag to the bag of
    /// `local` and the new bag to the bag of the global epoch.
    pub open spec fn views_migrated(&self, me: usize, local: int) -> Seq<Seq<Seq<usize>>> {
        donated(
            donated(
                donated(
                    donated(self.bag_views(), bag_before(local), self.record(me).garbage.old@),
                    bag_before(local),
                    self.record(me).garbage.pending(),
                ),
                local % 3,
                self.record(me).garbage.cur@,
            ),
            self.era() % 3,
            self.record(me).garbage.new@,
        )
    }

    /// The global bags once `me`, which is not pinned, has left: it took
    /// over the global epoch, which frees its old bag and rotates its
    /// bags if the epoch has moved on, and then gave what it held to the
    /// global bags: the old bag and what was put off to the bag of the
    /// epoch before, the current and the new bag to the bag of the epoch.
    pub open spec fn views_left(&self, me: usize) -> Seq<Seq<Seq<usize>>> {
        donated(
            donated(
                donated(
                    donated(self.bag_views(), bag_before(self.era()), self.old_entered(me)),
                    bag_before(self.era()),
                    self.pending_entered(me),
                ),
                self.era() % 3,
                self.cur_entered(me),
            ),
            self.era() % 3,
            self.new_entered(me),
        )
    }

    /// What the leaving of `me` makes of the cell at `a`: it is freed if
    /// `me` held it in what it frees on taking over the epoch; else it is
    /// in the state in which it was, in whose hands ever.
    pub open spec fn left_at(&self, then: &EpochState, me: usize, a: usize) -> bool {
        if self.freed_entering(me).contains(a) {
            !then.heap.allocated(a)
        } else {
            self.heap.same_state(&then.heap, a)
        }
    }

    /// What moving the garbage of `me` to the global bags makes of the
    /// state: the bags of `me` are empty, each was donated to the global
    /// bag of its epoch, and no cell changed but in who holds it.
    pub open spec fn migrated(&self, then: &EpochState, me: usize) -> bool {
        &&& then.participants.listed(me)
        &&& then.record(me).garbage.is_empty()
        &&& then.record(me).era() == self.record(me).era()
        &&& then.record(me).in_critical == self.record(me).in_critical
        &&& then.record(me).active == self.record(me).active
        &&& then.record(me).try_gc == self.record(me).try_gc
        &&& then.bag_views() == self.views_migrated(me, self.local_epoch(me))
        &&& then.do_global
        &&& then.era() == self.era()
        &&& then.epoch == self.epoch
        &&& then.participants.order() == self.participants.order()
        &&& self.others_same(then, me)
        &&& forall|a: usize| #[trigger] self.heap.same_state(&then.heap, a)
    }

    /// Tries to advance the global epoch, which succeeds if every
    /// participant on the list is either not pinned or pinned at the
    /// current epoch. On success the caller's local epoch follows, its
    /// bags are collected and rotated, and the global bag of two epochs
    /// ago is freed.
    ///
    /// The caller is to hold no pointer that it read under `guard`: once
    /// its local epoch has moved on, what it read before may be freed
    /// while it is still pinned. The guard that comes back covers what is
    /// read from here on.
    pub fn try_collect(&mut self, guard: &mut Guard) -> (advanced: bool)
        requires
            old(self).wf(),
            old(self).participants.listed(old(guard).owner()),
            old(self).pinned(old(guard).owner()),
        ensures
            final(self).wf(),
            final(guard).owner() == old(guard).owner(),
            // an attempt that succeeds moves the caller's local epoch on:
            // the guard covers what is read from here on, and no longer
            // what was read before
            final(guard).since() == (if advanced {
                final(self).local_epoch(old(guard).owner())
            } else {
                old(guard).since()
            }),
            old(self).collected(final(self), old(guard).owner(), advanced),
            advanced == old(self).can_advance(),
            final(self).era() == (if advanced {
                old(self).era() + 1
            } else {
                old(self).era()
            }),
            final(self).local_epoch(old(guard).owner()) == (if advanced {
                final(self).era()
            } else {
                old(self).local_epoch(old(guard).owner())
            }),
            final(self).record(old(guard).owner()).in_critical == old(self).record(
                old(guard).owner(),
            ).in_critical,
            final(self).record(old(guard).owner()).active
                == old(self).record(old(guard).owner()).active,
            final(self).record(old(guard).owner()).try_gc
                == old(self).record(old(guard).owner()).try_gc,
            old(self).step(final(self)),
            old(self).list_step(final(self), old(guard).owner()),
            old(self).gone_retired(final(self)),
            // an attempt that fails frees nothing
            !advanced ==> old(self).walked(final(self), old(guard).owner()) && final(self).garbage
                == old(self).garbage && final(self).do_global == old(self).do_global,
            // one that succeeds leaves only living threads on the list,
            // and frees what is two epochs old
            advanced ==> old(self).cleaned(final(self)) && old(self).swept(
                final(self),
                old(guard).owner(),
            ),
    {
        let me: usize = guard.participant();
        let cur_epoch: usize = self.epoch;
        if !self.scan(&*guard) {
            return false;
        }
        proof {
            lemma_word(self.era());
            lemma_word(self.era() + 1);
        }
        let ghost scanned = *self;
        let new_epoch: usize = next_word(cur_epoch);
        let seen: usize = self.epoch;
        if seen == cur_epoch {
            self.epoch = new_epoch;
            self.age = Ghost(self.age@ + 1);
        }
        if seen != cur_epoch {
            return false;
        }
        let ghost bumped = *self;
        proof {
            scanned.lemma_epoch_advanced(&bumped);
            assert(scanned.current(me));
            assert(old(self).step(&bumped)) by {
                assert forall|a: usize|
                    (#[trigger] old(self).heap.same_state(&bumped.heap, a))
                        || (old(self).heap.is_retired(a)
                        && old(self).heap.stamp(a) + 2 <= bumped.era()
                        && !bumped.heap.allocated(a)) || (old(self).heap.is_live(a)
                            && old(self).heap.kind(a) == RECORD_KIND
                            && old(self).participants.listed(a) && !old(self).record(a).active
                            && !bumped.participants.listed(a) && bumped.heap.is_retired(
                        a,
                    ) && bumped.heap.kind(a) == RECORD_KIND && bumped.heap.stamp(a)
                        == old(self).era()) by {
                    if old(self).heap.same_state(&scanned.heap, a) {
                    } else {
                    }
                }
            }
        }
        self.rotate(me);
        let ghost rotated = *self;
        proof {
            bumped.lemma_step_reclaim(old(self), &rotated, Holder::Local(me));
        }
        let g: usize = next_word(new_epoch) % 3;
        self.collect_global(g);
        proof {
            rotated.lemma_step_reclaim(old(self), self, Holder::Global(g as int));
            assert forall|b: usize| (#[trigger] self.participants.listed(b))
                implies old(self).participants.listed(b) && (b != me ==> self.record(b).era()
                == old(self).record(
                b,
            ).era() && self.record(b).in_critical == old(self).record(b).in_critical
                && self.record(b).active == old(self).record(b).active && self.record(b).try_gc
                == old(self).record(b).try_gc && self.record(b).garbage == old(self).record(
                b,
            ).garbage) by {
                assert(rotated.participants.listed(b));
                assert(bumped.participants.listed(b));
                assert(scanned.participants.listed(b));
            }
            assert forall|b: usize|
                (#[trigger] old(self).participants.listed(b)) && !self.participants.listed(
                    b,
                ) implies !old(self).record(b).active by {
                if scanned.participants.listed(b) {
                    assert(bumped.participants.listed(b));
                    if b != me {
                        assert(rotated.participants.listed(b));
                    }
                }
            }
        }
        let ghost drained_state = *self;
        self.set_garbage_flag();
        proof {
            lemma_word(old(self).era());
            lemma_word(old(self).era() + 1);
            lemma_word(old(self).era() + 2);
            assert(g as int == old(self).bag_due());
            let order = self.participants.order();
            assert(order == scanned.participants.order());
            assert(old(self).stale_of(me) == scanned.stale_of(me));
            assert(old(self).gone_retired(self)) by {
                assert forall|b: usize|
                    (#[trigger] old(self).participants.listed(b)) && !self.participants.listed(
                        b,
                    ) implies self.heap.is_retired(b) && self.heap.kind(b) == RECORD_KIND by {
                    old(self).lemma_swept_at(&scanned, &rotated, self, me, b);
                }
            }
            assert(old(self).cleaned(self)) by {
                assert forall|b: usize| #[trigger]
                    self.participants.listed(b) <==> old(self).participants.listed(b)
                        && old(self).record(b).active by {
                    assert(scanned.participants.listed(b) == self.participants.listed(b));
                }
                assert forall|b: usize| #[trigger]
                    self.participants.listed(b) implies self.record(b).active by {
                    assert(scanned.participants.listed(b));
                    assert(scanned.record(b).active);
                    if b != me {
                        assert(bumped.participants.listed(b));
                        assert(rotated.participants.listed(b));
                    }
                }
            }
            assert forall|a: usize| #[trigger] old(self).swept_at(self, me, a) by {
                old(self).lemma_swept_at(&scanned, &rotated, self, me, a);
            }
        }
        guard.renew(Ghost(&*self));
        true
    }

    /// How the three parts of a successful attempt make up what it does
    /// to the cell at `a`: the walk, the caller's rotation and the
    /// emptying of the global bag.
    proof fn lemma_swept_at(
        &self,
        scanned: &EpochState,
        rotated: &EpochState,
        then: &EpochState,
        me: usize,
        a: usize,
    )
        requires
            self.wf(),
            self.participants.listed(me),
            self.walked(scanned, me),
            self.gone_retired(scanned),
            scanned.participants.order() == then.participants.order(),
            crate::mem::epoch::garbage::freed(&scanned.heap, &rotated.heap, self.stale_of(me)),
            crate::mem::epoch::garbage::drained(
                &rotated.heap,
                &then.heap,
                self.garbage@[self.bag_due()]@,
                0,
            ),
        ensures
            self.swept_at(then, me, a),
            self.participants.listed(a) && !then.participants.listed(a) ==> then.heap.is_retired(
                a,
            ) && then.heap.kind(a) == RECORD_KIND,
    {
        let stale = self.stale_of(me);
        let bags = self.garbage@[self.bag_due()]@;
        assert(crate::mem::epoch::garbage::freed_at(&scanned.heap, &rotated.heap, stale, a));
        assert(crate::mem::epoch::garbage::drained_at(&rotated.heap, &then.heap, bags, 0, a));
        if self.heap.same_cell(&scanned.heap, a) {
        } else {
            assert(self.participants.listed(a) && !scanned.participants.listed(a));
        }
        assert(then.participants.listed(a) == scanned.participants.listed(a));
        self.lemma_record_inv(me);
        if self.participants.listed(a) {
            // a record on the list is live: it is in no bag
            self.participants.lemma_listed_is_live(&self.heap, a);
            if stale.contains(a) {
                let i = choose|i: int| 0 <= i < stale.len() && stale[i] == a;
                self.record(me).garbage.lemma_stale_held(
                    &self.heap,
                    Holder::Local(me),
                    self.local_epoch(me),
                );
                assert(self.record(me).garbage.stale()[i] == a);
            }
            if crate::mem::epoch::garbage::in_bags(bags, 0, a) {
                let b = choose|b: int| 0 <= b < bags.len() && (#[trigger] bags[b]).contains(a);
                let k = choose|k: int| 0 <= k < bags[b].len() && bags[b][k] == a;
                assert(held(
                    &self.heap,
                    self.garbage@[self.bag_due()]@[b],
                    Holder::Global(self.bag_due()),
                    bag_bound(self.era(), self.bag_due()),
                ));
                assert(self.heap.is_retired(bags[b][k]));
            }
        }
    }

    /// The three global bags, each as its donated bags.
    pub open spec fn bag_views(&self) -> Seq<Seq<Seq<usize>>> {
        Seq::new(3, |g: int| self.garbage@[g]@)
    }

    /// Donates `bag`, which held cells that `me` holds and that is no
    /// longer part of the garbage of `me`, to the global bag `g`.
    fn donate(&mut self, g: usize, bag: Bag, Ghost(me): Ghost<usize>)
        requires
            old(self).wf(),
            g < 3,
            old(self).participants.listed(me),
            old(self).record(me).garbage.is_empty(),
            distinct(bag@),
            held(&old(self).heap, bag@, Holder::Local(me), bag_bound(old(self).era(),
                g as int)),
        ensures
            final(self).wf(),
            final(self).bag_views() == donated(old(self).bag_views(), g as int, bag@),
            final(self).era() == old(self).era(),
            final(self).epoch == old(self).epoch,
            final(self).do_global == old(self).do_global,
            final(self).participants == old(self).participants,
            forall|a: usize|
                final(self).heap.status(a) == old(self).heap.status(a) && final(self).heap.stamp(a)
                    == old(self).heap.stamp(a) && final(self).heap.kind(a) == old(self).heap.kind(
                    a,
                ),
            forall|a: usize|
                #![trigger final(self).heap.holder(a)]
                final(self).heap.holder(a) == (if bag@.contains(a) {
                    Holder::Global(g as int)
                } else {
                    old(self).heap.holder(a)
                }),
    {
        let ghost moved = bag@;
        let ghost target = self.garbage@[g as int];
        proof {
            assert(target.separate() && target.held_in(
                &self.heap,
                Holder::Global(g as int),
                bag_bound(self.era(), g as int),
            ));
        }
        self.heap.rehome(
            Ghost(Set::new(|a: usize| moved.contains(a))),
            Ghost(Holder::Local(me)),
            Ghost(Holder::Global(g as int)),
        );
        self.garbage[g].insert(bag);
        proof {
            let h0 = &old(self).heap;
            let h1 = &self.heap;
            assert forall|a: usize| #![trigger h1.holder(a)] h1.holder(a) == (if moved.contains(a) {
                Holder::Global(g as int)
            } else {
                h0.holder(a)
            }) by {
                if moved.contains(a) {
                    let i = choose|i: int| 0 <= i < moved.len() && moved[i] == a;
                    assert(h0.holder(moved[i]) == Holder::Local(me));
                }
            }
            assert(self.bag_views() =~= donated(old(self).bag_views(), g as int, moved));
            // the list and its records
            let order = self.participants.order();
            assert forall|i: int| 0 <= i < order.len() implies h1.is_live(#[trigger] order[i])
                && h1.kind(order[i]) == RECORD_KIND by {
                assert(old(self).participants.listed(order[i]));
                old(self).participants.lemma_listed_is_live(h0, order[i]);
            }
            assert forall|i: int| 0 <= i < order.len() implies self.participants.stored(
                #[trigger] order[i],
            ) && self.participants.record(order[i]).next == old(self).participants.record(
                order[i],
            ).next by {
                assert(old(self).participants.listed(order[i]));
                old(self).participants.lemma_listed_is_live(h0, order[i]);
            }
            old(self).participants.lemma_same_shape_refl();
            old(self).participants.lemma_linked_framed(&self.participants, h0, h1);
            assert forall|i: int| 0 <= i < order.len() implies (
            #[trigger] self.participants.record(order[i])).inv(h1, order[i], self.era()) by {
                let b = order[i];
                let r = old(self).participants.record(b);
                assert(r.inv(h0, b, self.era()));
                if b == me {
                    r.garbage.lemma_separate_parts();
                    r.garbage.lemma_empty_held(h1, Holder::Local(me), r.era());
                } else {
                    assert forall|a: usize|
                        h0.is_retired(a) && h0.holder(a) == Holder::Local(
                            b,
                        ) implies #[trigger] h0.same_cell(h1, a) by {
                        assert(h1.holder(a) == h0.holder(a)) by {
                            if moved.contains(a) {
                                let i = choose|i: int| 0 <= i < moved.len() && moved[i] == a;
                                assert(h0.holder(moved[i]) == Holder::Local(me));
                            }
                        }
                    }
                    r.garbage.lemma_held_framed(h0, h1, Holder::Local(b), r.era());
                }
            }
            // the global bags
            assert forall|k: int| 0 <= k < 3 implies (#[trigger] self.garbage@[k]).separate()
                && self.garbage@[k].held_in(h1, Holder::Global(k), bag_bound(self.era(), k))
                    by {
                let was = old(self).garbage@[k];
                assert(was.separate() && was.held_in(
                    h0,
                    Holder::Global(k),
                    bag_bound(self.era(), k),
                ));
                assert forall|a: usize|
                    h0.is_retired(a) && h0.holder(a) == Holder::Global(
                        k,
                    ) implies #[trigger] h0.same_cell(h1, a) by {
                    assert(h1.holder(a) == h0.holder(a)) by {
                        if moved.contains(a) {
                            let i = choose|i: int| 0 <= i < moved.len() && moved[i] == a;
                            assert(h0.holder(moved[i]) == Holder::Local(me));
                        }
                    }
                }
                was.lemma_held_framed(h0, h1, Holder::Global(k), bag_bound(self.era(), k));
                if k == g {
                    let now = self.garbage@[k];
                    let n = was@.len() as int;
                    assert(now@ == was@.push(moved));
                    assert forall|b: int| 0 <= b < now@.len() implies distinct(
                        #[trigger] now@[b],
                    ) by {
                        if b < n {
                            assert(now@[b] == was@[b]);
                        }
                    }
                    assert forall|b: int, c: int| 0 <= b < c < now@.len() implies disjoint(
                        #[trigger] now@[b],
                        #[trigger] now@[c],
                    ) by {
                        assert(now@[b] == was@[b]);
                        if c < n {
                            assert(now@[c] == was@[c]);
                        } else {
                            assert(held(h0, was@[b], Holder::Global(k),
                                bag_bound(self.era(), k)));
                            lemma_holders_apart(
                                h0,
                                was@[b],
                                moved,
                                Holder::Global(k),
                                Holder::Local(me),
                                bag_bound(self.era(), k),
                                bag_bound(self.era(), k),
                            );
                        }
                    }
                    assert forall|b: int| 0 <= b < now@.len() implies held(
                        h1,
                        #[trigger] now@[b],
                        Holder::Global(k),
                        bag_bound(self.era(), k),
                    ) by {
                        if b < n {
                            assert(now@[b] == was@[b]);
                            assert(held(
                                h1,
                                was@[b],
                                Holder::Global(k),
                                bag_bound(self.era(), k),
                            ));
                        } else {
                            assert forall|i: int| 0 <= i < moved.len() implies h1.is_retired(
                                #[trigger] moved[i],
                            ) && h1.holder(moved[i]) == Holder::Global(k) && h1.stamp(moved[i])
                                <= bag_bound(self.era(), k) by {
                                assert(h0.is_retired(moved[i]));
                                assert(moved.contains(moved[i]));
                            }
                        }
                    }
                } else {
                    assert(self.garbage@[k] == old(self).garbage@[k]);
                }
            }
        }
    }

    /// Moves the garbage of `me`, who is pinned, into the global bags: the
    /// old bag and what was put off go to the bag of the epoch before the
    /// local one, the current bag to the bag of the local epoch, and the
    /// new bag to the bag of the global epoch.
    pub fn migrate_garbage(&mut self, me: usize)
        requires
            old(self).wf(),
            old(self).participants.listed(me),
            old(self).pinned(me),
        ensures
            final(self).wf(),
            old(self).migrated(final(self), me),
            final(self).participants.listed(me),
            final(self).record(me).garbage.is_empty(),
            final(self).record(me).era() == old(self).record(me).era(),
            final(self).record(me).in_critical == old(self).record(me).in_critical,
            final(self).record(me).active == old(self).record(me).active,
            final(self).record(me).try_gc == old(self).record(me).try_gc,
            final(self).bag_views() == old(self).views_migrated(me, old(self).local_epoch(me)),
            final(self).do_global,
            final(self).era() == old(self).era(),
            final(self).epoch == old(self).epoch,
            final(self).participants.order() == old(self).participants.order(),
            old(self).others_same(final(self), me),
            forall|a: usize|
                final(self).heap.status(a) == old(self).heap.status(a) && final(self).heap.stamp(a)
                    == old(self).heap.stamp(a) && final(self).heap.kind(a) == old(self).heap.kind(
                    a,
                ),
    {
        proof {
            old(self).lemma_record_inv(me);
        }
        let mut p = self.participants.take_out(me);
        let ghost taken = self.participants;
        let cur_epoch: usize = p.epoch;
        let mut local = Local::new();
        core::mem::swap(&mut p.garbage, &mut local);
        proof {
            p.garbage.lemma_empty_held(&self.heap, Holder::Local(me), p.era());
        }
        self.participants.put_back(me, p);
        let ghost h0 = self.heap;
        let ghost e = p.era();
        let ghost global = self.era();
        proof {
            lemma_word(e);
            lemma_word(global);
            assert forall|a: usize|
                (old(self).heap.is_retired(a) && old(self).heap.holder(a) != Holder::Local(me)) || (
                old(self).heap.is_live(a) && old(self).heap.kind(a) == RECORD_KIND)
                    implies #[trigger] old(self).heap.same_cell(&self.heap, a) by {}
            old(self).lemma_put_back(&taken, self, me);
            local.lemma_separate_parts();
            local.lemma_held_parts(&h0, Holder::Local(me), e);
            assert(held(&h0, local.new@, Holder::Local(me), global));
        }
        let Local { old, cur, new, pending } = local;
        let pending = pending.into_bag();
        let ghost old_v = old@;
        let ghost pending_v = pending@;
        let ghost cur_v = cur@;
        let ghost new_v = new@;
        let before: usize = (cur_epoch % 3 + 2) % 3;
        proof {
            assert(held(&self.heap, old_v, Holder::Local(me), bag_bound(global, before as int)));
        }
        self.donate(before, old, Ghost(me));
        let ghost h1 = self.heap;
        proof {
            Self::lemma_still_held(&h0, &h1, old_v, pending_v, me, before as int, e - 1);
            assert(held(&self.heap, pending_v, Holder::Local(me), bag_bound(global,
                before as int)));
        }
        self.donate(before, pending, Ghost(me));
        let ghost h2 = self.heap;
        proof {
            Self::lemma_still_held(&h0, &h1, old_v, cur_v, me, before as int, e);
            Self::lemma_still_held(&h1, &h2, pending_v, cur_v, me, before as int, e);
            assert(held(
                &self.heap,
                cur_v,
                Holder::Local(me),
                bag_bound(global, (cur_epoch % 3) as int),
            ));
        }
        self.donate(cur_epoch % 3, cur, Ghost(me));
        let ghost h3 = self.heap;
        proof {
            Self::lemma_still_held(&h0, &h1, old_v, new_v, me, before as int, global);
            Self::lemma_still_held(&h1, &h2, pending_v, new_v, me, before as int, global);
            Self::lemma_still_held(&h2, &h3, cur_v, new_v, me, e % 3, global);
            assert(held(
                &self.heap,
                new_v,
                Holder::Local(me),
                bag_bound(global, (self.era() % 3) as int),
            ));
        }
        let newest: usize = self.epoch % 3;
        self.donate(newest, new, Ghost(me));
        proof {
            let views = self.bag_views();
            assert(views[newest as int].len() > 0);
            assert(self.garbage@[newest as int]@ == views[newest as int]);
        }
        self.set_garbage_flag();
    }

    /// Cells that `me` holds and that were not donated are still held by
    /// `me` after a donation.
    proof fn lemma_still_held(
        h0: &Heap,
        h1: &Heap,
        gone: Seq<usize>,
        s: Seq<usize>,
        me: usize,
        g: int,
        bound: int,
    )
        requires
            held(h0, s, Holder::Local(me), bound),
            disjoint(gone, s),
            forall|a: usize|
                h1.status(a) == h0.status(a) && h1.stamp(a) == h0.stamp(a) && h1.kind(a)
                    == h0.kind(a),
            forall|a: usize|
                #![trigger h1.holder(a)]
                h1.holder(a) == (if gone.contains(a) {
                    Holder::Global(g)
                } else {
                    h0.holder(a)
                }),
        ensures
            held(h1, s, Holder::Local(me), bound),
    {
        assert forall|i: int| 0 <= i < s.len() implies h1.is_retired(#[trigger] s[i])
            && h1.holder(s[i]) == Holder::Local(me) && h1.stamp(s[i]) <= bound by {
            assert(h0.is_retired(s[i]));
            if gone.contains(s[i]) {
                let k = choose|k: int| 0 <= k < gone.len() && gone[k] == s[i];
                assert(gone[k] != s[i]);
            }
        }
    }

    /// Takes note that the thread of `me`, which holds no guard, has
    /// left: its garbage moves to the global bags and its record is marked
    /// inactive. The record stays on the list until a walk takes it off.
    pub fn leave(&mut self, me: usize)
        requires
            old(self).wf(),
            old(self).enrolled(me),
            !old(self).pinned(me),
        ensures
            final(self).wf(),
            final(self).participants.listed(me),
            !final(self).record(me).active,
            final(self).record(me).in_critical == 0,
            final(self).record(me).garbage.is_empty(),
            // what the thread held went to the global bags, and the flag
            // that tells of global garbage is up
            final(self).do_global,
            final(self).bag_views() == old(self).views_left(me),
            forall|a: usize| #[trigger] old(self).left_at(final(self), me, a),
            final(self).era() == old(self).era(),
            final(self).epoch == old(self).epoch,
            final(self).participants.order() == old(self).participants.order(),
            old(self).others_same(final(self), me),
            old(self).step(final(self)),
    {
        self.enter(me);
        let ghost entered = *self;
        proof {
            assert(entered.record(me).garbage.old@ == old(self).old_entered(me));
            assert(entered.record(me).garbage.cur@ == old(self).cur_entered(me));
            assert(entered.record(me).garbage.new@ =~= old(self).new_entered(me));
            assert(entered.record(me).garbage.pending() == old(self).pending_entered(me));
            assert(entered.bag_views() == old(self).bag_views());
            assert(entered.views_migrated(me, entered.local_epoch(me)) == old(self).views_left(
                me,
            ));
            assert(crate::mem::epoch::garbage::freed(
                &old(self).heap,
                &entered.heap,
                old(self).freed_entering(me),
            ));
        }
        self.migrate_garbage(me);
        let ghost migrated = *self;
        self.exit(me);
        let ghost exited = *self;
        proof {
            exited.lemma_record_inv(me);
        }
        let mut p = self.participants.take_out(me);
        let ghost taken = self.participants;
        p.active = false;
        self.participants.put_back(me, p);
        proof {
            assert forall|a: usize|
                (exited.heap.is_retired(a) && exited.heap.holder(a) != Holder::Local(me)) || (
                exited.heap.is_live(a) && exited.heap.kind(a) == RECORD_KIND)
                    implies #[trigger] exited.heap.same_cell(&self.heap, a) by {}
            exited.lemma_put_back(&taken, self, me);
            assert forall|b: usize| b != me && (#[trigger] old(self).participants.listed(
                b,
            )) implies self.participants.listed(b) && self.participants.record(b)
                == old(self).participants.record(b) by {
                assert(entered.participants.listed(b));
                assert(migrated.participants.listed(b));
                assert(exited.participants.listed(b));
            }
            assert forall|a: usize|
                (#[trigger] old(self).heap.same_state(&self.heap, a)) || (old(self).heap.is_retired(
                    a,
                ) && old(self).heap.stamp(a) + 2 <= self.era() && !self.heap.allocated(a))
                    || (old(self).heap.is_live(a) && old(self).heap.kind(a) == RECORD_KIND
                    && old(self).participants.listed(a) && !old(self).record(a).active
                    && !self.participants.listed(a) && self.heap.is_retired(a) && self.heap.kind(a)
                    == RECORD_KIND && self.heap.stamp(a) == old(self).era()) by {
                if old(self).heap.same_cell(&entered.heap, a) {
                    assert(old(self).heap.status(a) == entered.heap.status(a));
                } else {
                    assert(!entered.heap.allocated(a));
                }
                assert(self.heap == migrated.heap);
                assert(migrated.heap.status(a) == entered.heap.status(a));
                assert(migrated.heap.stamp(a) == entered.heap.stamp(a));
                assert(migrated.heap.kind(a) == entered.heap.kind(a));
                assert(entered.era() == old(self).era());
            }
            assert(self.bag_views() == migrated.bag_views());
            assert forall|a: usize| #[trigger] old(self).left_at(self, me, a) by {
                assert(crate::mem::epoch::garbage::freed_at(
                    &old(self).heap,
                    &entered.heap,
                    old(self).freed_entering(me),
                    a,
                ));
                assert(entered.heap.same_state(&migrated.heap, a));
                assert(self.heap == migrated.heap);
            }
        }
    }

    /// Entering a critical section is a step.
    pub proof fn lemma_entered_step(&self, first: &EpochState, me: usize)
        requires
            first.wf(),
            first.participants.listed(me),
            self.participants.listed(me),
            self.era() == first.era(),
            self.epoch == first.epoch,
            first.heap.reclaimed_from(&self.heap, Holder::Local(me), first.era() - 2),
            self.participants.order() == first.participants.order(),
            first.others_same(self, me),
        ensures
            first.step(self),
            first.list_step(self, me),
    {
        assert forall|a: usize|
            (#[trigger] first.heap.same_state(&self.heap, a)) || (first.heap.is_retired(a)
                && first.heap.stamp(a) + 2 <= self.era() && !self.heap.allocated(a)) || (
            first.heap.is_live(a) && first.heap.kind(a) == RECORD_KIND && first.participants.listed(
                a,
            ) && !first.record(a).active && !self.participants.listed(a) && self.heap.is_retired(a)
                && self.heap.kind(a) == RECORD_KIND && self.heap.stamp(a) == first.era()) by {
            if first.heap.same_cell(&self.heap, a) {
            } else {
            }
        }
        assert forall|b: usize| (#[trigger] self.participants.listed(b)) implies
            first.participants.listed(b) && (b != me ==> self.record(b).era() == first.record(
            b,
        ).era() && self.record(b).in_critical == first.record(b).in_critical && self.record(
            b,
        ).active == first.record(b).active && self.record(b).try_gc == first.record(b).try_gc
            && self.record(b).garbage == first.record(b).garbage) by {
            assert(first.participants.listed(b));
        }
    }

    /// A state change that leaves every cell in its state, the list as it
    /// is and the records of others as they are is a step.
    pub proof fn lemma_same_state_step(&self, then: &EpochState, me: usize)
        requires
            self.participants.listed(me),
            then.participants.listed(me),
            forall|a: usize| #[trigger] self.heap.same_state(&then.heap, a),
            then.participants.order() == self.participants.order(),
            self.others_same(then, me),
        ensures
            self.step(then),
            self.list_step(then, me),
    {
        assert forall|b: usize| (#[trigger] then.participants.listed(b)) implies
            self.participants.listed(b) && (b != me ==> then.record(b).era() == self.record(
            b,
        ).era() && then.record(b).in_critical == self.record(b).in_critical && then.record(
            b,
        ).active == self.record(b).active && then.record(b).try_gc == self.record(b).try_gc
            && then.record(b).garbage == self.record(b).garbage) by {
            assert(self.participants.listed(b));
        }
    }

    /// Whether every participant allows the epoch to advance once `me`
    /// has entered says the same as `quiet_entered` of the state before.
    pub proof fn lemma_quiet_entered(&self, entered: &EpochState, me: usize)
        requires
            self.wf(),
            entered.wf(),
            self.participants.listed(me),
            entered.participants.listed(me),
            entered.era() == self.era(),
            entered.epoch == self.epoch,
            entered.in_critical(me) == self.in_critical(me) + 1,
            entered.local_epoch(me) == (if self.pinned(me) {
                self.local_epoch(me)
            } else {
                self.era()
            }),
            entered.participants.order() == self.participants.order(),
            self.others_same(entered, me),
        ensures
            entered.can_advance() == self.quiet_entered(me),
    {
        if entered.can_advance() {
            assert forall|b: usize| b != me && (#[trigger] self.participants.listed(
                b,
            )) implies self.current(b) by {
                assert(entered.participants.listed(b));
                assert(entered.current(b));
            }
            assert(entered.current(me));
        }
        if self.quiet_entered(me) {
            assert forall|b: usize| (#[trigger] entered.participants.listed(
                b,
            )) implies entered.current(b) by {
                assert(self.participants.listed(b));
                if b != me {
                    assert(self.current(b));
                }
            }
        }
    }

    /// Two steps of `me` make a step, if the epoch advances by one at
    /// most.
    pub proof fn lemma_steps(&self, first: &EpochState, then: &EpochState, me: usize)
        requires
            first.wf(),
            self.wf(),
            first.step(self),
            first.list_step(self, me),
            self.step(then),
            self.list_step(then, me),
            self.era() == first.era(),
            self.epoch == first.epoch,
            self.era() <= then.era() <= self.era() + 1,
            self.record(me).active,
        ensures
            first.step(then),
            first.list_step(then, me),
    {
        assert forall|b: usize| (#[trigger] then.participants.listed(b)) implies
            first.participants.listed(b) && (b != me ==> then.record(b).era() == first.record(
            b,
        ).era() && then.record(b).in_critical == first.record(b).in_critical && then.record(
            b,
        ).active == first.record(b).active && then.record(b).try_gc == first.record(b).try_gc
            && then.record(b).garbage == first.record(b).garbage) by {
            assert(self.participants.listed(b));
        }
        assert forall|b: usize|
            (#[trigger] first.participants.listed(b)) && !then.participants.listed(
                b,
            ) implies !first.record(b).active by {
            if self.participants.listed(b) {
                assert(!self.record(b).active);
            }
        }
        assert forall|a: usize|
            (#[trigger] first.heap.same_state(&then.heap, a)) || (first.heap.is_retired(a)
                && first.heap.stamp(a) + 2 <= then.era() && !then.heap.allocated(a)) || (
            first.heap.is_live(a) && first.heap.kind(a) == RECORD_KIND && first.participants.listed(
                a,
            ) && !first.record(a).active && !then.participants.listed(a) && then.heap.is_retired(a)
                && then.heap.kind(a) == RECORD_KIND && then.heap.stamp(a) == first.era()) by {
            if first.heap.same_state(&self.heap, a) {
                if self.heap.same_state(&then.heap, a) {
                } else {
                    if self.heap.is_live(a) {
                        assert(self.participants.listed(a));
                        assert(first.participants.listed(a));
                        assert(a != me);
                    }
                }
            } else {
                if self.heap.same_state(&then.heap, a) {
                    if then.participants.listed(a) {
                        assert(self.participants.listed(a));
                    }
                } else {
                }
            }
        }
    }

    /// Leaving a critical section after a step makes a step.
    pub proof fn lemma_released_step(&self, first: &EpochState, then: &EpochState, me: usize)
        requires
            first.step(self),
            first.list_step(self, me),
            then.heap == self.heap,
            then.era() == self.era(),
            then.epoch == self.epoch,
            then.participants.listed(me),
            then.participants.order() == self.participants.order(),
            self.others_same(then, me),
        ensures
            first.step(then),
            first.list_step(then, me),
    {
        assert forall|b: usize| (#[trigger] then.participants.listed(b)) implies
            first.participants.listed(b) && (b != me ==> then.record(b).era() == first.record(
            b,
        ).era() && then.record(b).in_critical == first.record(b).in_critical && then.record(
            b,
        ).active == first.record(b).active && then.record(b).try_gc == first.record(b).try_gc
            && then.record(b).garbage == first.record(b).garbage) by {
            assert(self.participants.listed(b));
        }
        assert forall|b: usize|
            (#[trigger] first.participants.listed(b)) && !then.participants.listed(
                b,
            ) implies !first.record(b).active by {
            if self.participants.listed(b) {
                assert(then.participants.listed(b));
            }
        }
        assert forall|a: usize|
            (#[trigger] first.heap.same_state(&then.heap, a)) || (first.heap.is_retired(a)
                && first.heap.stamp(a) + 2 <= then.era() && !then.heap.allocated(a)) || (
            first.heap.is_live(a) && first.heap.kind(a) == RECORD_KIND && first.participants.listed(
                a,
            ) && !first.record(a).active && !then.participants.listed(a) && then.heap.is_retired(a)
                && then.heap.kind(a) == RECORD_KIND && then.heap.stamp(a) == first.era()) by {
            if first.heap.same_state(&self.heap, a) {
            } else {
                if then.participants.listed(a) {
                    assert(self.participants.listed(a));
                }
            }
        }
    }

    /// The state stays in order when a cell is allocated for something
    /// other than a participant record.
    pub proof fn lemma_allocated(&self, then: &EpochState, a: usize)
        requires
            self.wf(),
            then.heap.wf(),
            !self.heap.allocated(a),
            forall|b: usize| b != a ==> self.heap.same_cell(&then.heap, b),
            then.era() == self.era(),
            then.epoch == self.epoch,
            then.garbage == self.garbage,
            then.participants == self.participants,
        ensures
            then.wf(),
    {
        let order = self.participants.order();
        assert forall|i: int| 0 <= i < order.len() implies then.heap.is_live(#[trigger] order[i])
            && then.heap.kind(order[i]) == RECORD_KIND by {
            assert(self.participants.listed(order[i]));
            self.participants.lemma_listed_is_live(&self.heap, order[i]);
            assert(self.heap.same_cell(&then.heap, order[i]));
        }
        assert forall|i: int| 0 <= i < order.len() implies then.participants.stored(
            #[trigger] order[i],
        ) && then.participants.record(order[i]).next == self.participants.record(order[i]).next by {
            assert(self.participants.listed(order[i]));
            self.participants.lemma_listed_is_live(&self.heap, order[i]);
        }
        self.participants.lemma_same_shape_refl();
        self.participants.lemma_linked_framed(&then.participants, &self.heap, &then.heap);
        assert forall|b: usize| self.heap.is_retired(b) implies #[trigger] self.heap.same_cell(
            &then.heap,
            b,
        ) by {}
        assert forall|i: int| 0 <= i < order.len() implies (#[trigger] then.participants.record(
            order[i],
        )).inv(&then.heap, order[i], then.era()) by {
            let r = self.participants.record(order[i]);
            assert(r.inv(&self.heap, order[i], self.era()));
            r.garbage.lemma_held_framed(
                &self.heap,
                &then.heap,
                Holder::Local(order[i]),
                r.era(),
            );
        }
        assert forall|k: int| 0 <= k < 3 implies (#[trigger] then.garbage@[k]).separate()
            && then.garbage@[k].held_in(
            &then.heap,
            Holder::Global(k),
            bag_bound(then.era(), k),
        ) by {
            self.garbage@[k].lemma_held_framed(
                &self.heap,
                &then.heap,
                Holder::Global(k),
                bag_bound(self.era(), k),
            );
        }
    }

    /// A step leaves every live cell that is no participant record as it
    /// is.
    pub proof fn lemma_step_keeps_live(&self, then: &EpochState, a: usize)
        requires
            self.step(then),
            self.heap.is_live(a),
            self.heap.kind(a) != RECORD_KIND,
        ensures
            then.heap.is_live(a),
            then.heap.kind(a) == self.heap.kind(a),
    {
        assert(self.heap.same_state(&then.heap, a));
    }

    /// Every live cell of `self` that is neither a participant record nor
    /// named in `mine` is a live cell of `then`, of the same kind.
    pub open spec fn keeps_live_but(&self, then: &EpochState, mine: Seq<usize>) -> bool {
        forall|a: usize|
            self.heap.is_live(a) && self.heap.kind(a) != RECORD_KIND && !mine.contains(a) ==> (
            #[trigger] then.heap.is_live(a)) && then.heap.kind(a) == self.heap.kind(a)
    }

    /// A state keeps its own live cells.
    pub proof fn lemma_keeps_refl(&self, mine: Seq<usize>)
        ensures
            self.keeps_live_but(self, mine),
    {
    }

    /// A step keeps every live cell that is no participant record.
    pub proof fn lemma_step_keeps(&self, then: &EpochState, mine: Seq<usize>)
        requires
            self.step(then),
        ensures
            self.keeps_live_but(then, mine),
    {
        if !self.keeps_live_but(then, mine) {
            let a = choose|a: usize|
                self.heap.is_live(a) && self.heap.kind(a) != RECORD_KIND && !mine.contains(a) && !(
                (#[trigger] then.heap.is_live(a)) && then.heap.kind(a) == self.heap.kind(a));
            self.lemma_step_keeps_live(then, a);
        }
    }

    /// Whether the pinned participant `t` guards the cell at `a`: the cell
    /// is allocated, and if it is retired, it was retired no earlier than
    /// at the local epoch of `t`.
    pub open spec fn guards(&self, t: usize, a: usize) -> bool {
        &&& self.participants.listed(t)
        &&& self.pinned(t)
        &&& self.heap.allocated(a)
        &&& self.heap.is_retired(a) ==> self.heap.stamp(a) >= self.local_epoch(t)
    }

    /// While a participant is pinned, the global epoch is at most one
    /// ahead of its local epoch, and never behind it.
    pub proof fn lemma_pinned_bounds_epoch(&self, t: usize)
        requires
            self.wf(),
            self.participants.listed(t),
            self.pinned(t),
        ensures
            self.local_epoch(t) <= self.era() <= self.local_epoch(t) + 1,
            self.record(t).active,
    {
        self.lemma_record_inv(t);
    }

    /// No use after free, for one step: a cell that a pinned participant
    /// guards is still allocated, and still guarded, after any step that
    /// leaves the participant pinned at the same local epoch. So whatever
    /// a participant reads out of a structure while it is pinned stays
    /// allocated until it unpins, whoever unlinks it and however often
    /// others try to collect.
    pub proof fn lemma_guarded_survives_step(&self, then: &EpochState, t: usize, a: usize)
        requires
            self.wf(),
            then.wf(),
            self.step(then),
            self.guards(t, a),
            then.participants.listed(t),
            then.pinned(t),
            then.local_epoch(t) == self.local_epoch(t),
        ensures
            then.guards(t, a),
            then.heap.kind(a) == self.heap.kind(a),
    {
        then.lemma_pinned_bounds_epoch(t);
        self.lemma_pinned_bounds_epoch(t);
        if self.heap.same_state(&then.heap, a) {
        } else {
        }
    }

    /// No use after free, by the guard: a cell that the holder of a guard
    /// guards is still allocated, and still guarded, after any step after
    /// which the guard still covers. A guard covers from the pin to its
    /// release, whatever other participants do; it stops covering what
    /// was read before only if its holder itself advances the epoch under
    /// it.
    pub proof fn lemma_guard_protects(&self, then: &EpochState, g: &Guard, a: usize)
        requires
            self.wf(),
            then.wf(),
            self.step(then),
            g.covers(self),
            g.covers(then),
            self.guards(g.owner(), a),
        ensures
            then.guards(g.owner(), a),
            then.heap.allocated(a),
            then.heap.kind(a) == self.heap.kind(a),
    {
        self.lemma_guarded_survives_step(then, g.owner(), a);
    }

    /// A guard that covered before a step of another participant covers
    /// after it.
    pub proof fn lemma_guard_covers(&self, then: &EpochState, g: &Guard, other: usize)
        requires
            g.covers(self),
            other != g.owner(),
            self.list_step(then, other),
            self.record(g.owner()).active,
        ensures
            g.covers(then),
    {
    }

    /// No use after free, for an unlinking: a cell that a pinned
    /// participant guards is still guarded when a live cell, that one or
    /// another, is retired at the current global epoch.
    pub proof fn lemma_guarded_survives_unlink(
        &self,
        then: &EpochState,
        t: usize,
        a: usize,
        unlinked: usize,
    )
        requires
            self.wf(),
            self.guards(t, a),
            self.heap.is_live(unlinked),
            then.heap.is_retired(unlinked),
            then.heap.stamp(unlinked) == self.era(),
            forall|b: usize| b != unlinked ==> self.heap.same_cell(&then.heap, b),
            then.participants.listed(t),
            then.pinned(t),
            then.local_epoch(t) == self.local_epoch(t),
        ensures
            then.guards(t, a),
    {
        self.lemma_pinned_bounds_epoch(t);
        if a != unlinked {
            assert(self.heap.same_cell(&then.heap, a));
        }
    }

    /// Freed at most once: in a state in order, a cell that waits in the
    /// garbage of one participant is a retired cell, waits nowhere in the
    /// garbage of another, and a cell that was freed is in nobody's
    /// garbage. A cell is freed only out of a bag, so no cell is freed
    /// twice.
    pub proof fn lemma_held_once(&self, p: usize, q: usize, a: usize)
        requires
            self.wf(),
            self.participants.listed(p),
            self.participants.listed(q),
            self.record(p).garbage.holds(a),
        ensures
            self.heap.is_retired(a),
            self.heap.holder(a) == Holder::Local(p),
            p != q ==> !self.record(q).garbage.holds(a),
    {
        self.lemma_record_inv(p);
        self.lemma_record_inv(q);
        self.record(p).garbage.lemma_holds_held(&self.heap, Holder::Local(p), self.local_epoch(p),
            a);
        if p != q && self.record(q).garbage.holds(a) {
            self.record(q).garbage.lemma_holds_held(
                &self.heap,
                Holder::Local(q),
                self.local_epoch(q),
                a,
            );
        }
    }

    /// The state at the start: epoch 0, nobody enrolled, nothing allocated.
    /// The state after `advances` advances of the epoch, with nobody
    /// enrolled and nothing allocated: a state of a process that has run
    /// for long.
    pub fn aged(advances: usize) -> (s: EpochState)
        ensures
            s.wf(),
            s.era() == advances,
            !s.do_global,
            s.participants.order() == Seq::<usize>::empty(),
            forall|a: usize| !s.heap.allocated(a),
    {
        let mut garbage: Vec<ConcBag> = Vec::new();
        garbage.push(ConcBag::new());
        garbage.push(ConcBag::new());
        garbage.push(ConcBag::new());
        proof {
            crate::mem::epoch::participant::lemma_modulus();
            lemma_word(advances as int);
        }
        EpochState {
            age: Ghost(advances as int),
            epoch: advances % crate::mem::epoch::participant::epoch_modulus(),
            do_global: false,
            garbage,
            participants: Participants::new(),
            heap: Heap::new(),
        }
    }

    pub fn new() -> (s: EpochState)
        ensures
            s.wf(),
            s.era() == 0,
            !s.do_global,
            s.participants.order() == Seq::<usize>::empty(),
            forall|a: usize| !s.heap.allocated(a),
    {
        let mut garbage: Vec<ConcBag> = Vec::new();
        garbage.push(ConcBag::new());
        garbage.push(ConcBag::new());
        garbage.push(ConcBag::new());
        proof {
            crate::mem::epoch::participant::lemma_modulus();
        }
        EpochState {
            age: Ghost(0),
            epoch: 0,
            do_global: false,
            garbage,
            participants: Participants::new(),
            heap: Heap::new(),
        }
    }
}

} // verus!
