//! One participant of the epoch scheme: the record that a thread enrols
//! with.

use crate::mem::epoch::garbage::{freed, held, Local};
use crate::mem::epoch::global::EpochState;
use crate::mem::epoch::heap::{Heap, Holder};
use crate::mem::epoch::Guard;
use crate::mem::epoch::Atomic;
use vstd::prelude::*;

verus! {

/// Number of local garbage items above which a pin tries to collect.
pub const GC_THRESH: usize = 32;

/// The global epoch counts the advances, and wraps: what is kept of it is
/// the count modulo this number, the largest multiple of three that a
/// word holds. A multiple of three, so that the bag of an epoch, which is
/// found by the epoch modulo three, is the same before and after the
/// counter has wrapped.
pub open spec fn modulus() -> int {
    usize::MAX - usize::MAX % 3
}

/// What is kept of the count `age` of advances.
pub open spec fn word_of(age: int) -> int {
    age % modulus()
}

/// The modulus is a multiple of three and more than three.
pub proof fn lemma_modulus()
    ensures
        modulus() % 3 == 0,
        3 < modulus() <= usize::MAX,
{
    let m = usize::MAX as int;
    vstd::arithmetic::div_mod::lemma_fundamental_div_mod(m, 3);
    assert(m - m % 3 == 3 * (m / 3));
    vstd::arithmetic::div_mod::lemma_mod_multiples_basic(m / 3, 3);
    assert(3 * (m / 3) == (m / 3) * 3) by (nonlinear_arith);
}

/// What is kept of a count is a word, and it is the count modulo three
/// that it gives modulo three.
pub proof fn lemma_word(age: int)
    requires
        0 <= age,
    ensures
        0 <= word_of(age) < modulus(),
        word_of(age) % 3 == age % 3,
        word_of(age + 1) == (if word_of(age) + 1 == modulus() {
            0
        } else {
            word_of(age) + 1
        }),
{
    lemma_modulus();
    let m = modulus();
    vstd::arithmetic::div_mod::lemma_mod_bound(age, m);
    vstd::arithmetic::div_mod::lemma_fundamental_div_mod(m, 3);
    assert(m == 3 * (m / 3));
    assert(m / 3 > 0);
    vstd::arithmetic::div_mod::lemma_mod_mod(age, 3, m / 3);
    crate::sync::spsc_bufferqueue::lemma_mod_succ(age, m);
}

/// Two counts that are at most one apart have the same word exactly when
/// they are the same.
pub proof fn lemma_word_apart(a: int, b: int)
    requires
        0 <= a <= b <= a + 1,
    ensures
        (word_of(a) == word_of(b)) == (a == b),
{
    lemma_modulus();
    crate::sync::spsc_bufferqueue::lemma_mod_same(a, b, modulus());
}

/// The modulus of the epoch counter.
pub fn epoch_modulus() -> (m: usize)
    ensures
        m == modulus(),
{
    usize::MAX - usize::MAX % 3
}

/// The word that follows `word`.
pub fn next_word(word: usize) -> (next: usize)
    requires
        word < modulus(),
    ensures
        next == (if word + 1 == modulus() {
            0
        } else {
            word + 1
        }),
{
    proof {
        lemma_modulus();
    }
    if word + 1 == epoch_modulus() {
        0
    } else {
        word + 1
    }
}

/// Per-thread data of the epoch scheme.
pub struct Participant {
    /// The local epoch: what is kept of the count of advances that the
    /// thread has seen.
    pub epoch: usize,
    /// The count of advances that the thread has seen.
    pub age: Ghost<int>,
    /// Number of guards that the thread holds: pins minus unpins.
    pub in_critical: usize,
    /// The thread's garbage.
    pub garbage: Local,
    /// Whether the thread still exists. Turns false once, when it exits.
    pub active: bool,
    /// Whether the record was taken off the participant list.
    pub unlinked: bool,
    /// Whether pins of this thread may collect garbage.
    pub try_gc: bool,
    /// The record behind this one on the participant list.
    pub next: Atomic,
}

impl Participant {
    /// What holds of the record at address `me` when the global epoch is
    /// `global`: its garbage is in order and was retired no later than
    /// `global`, its local epoch is not ahead of the global one, and while
    /// it is pinned the global epoch is at most one ahead of it. A record
    /// whose thread has left is not pinned and
    /// holds no garbage.
    pub open spec fn inv(&self, heap: &Heap, me: usize, global: int) -> bool {
        &&& self.garbage.separate()
        &&& self.garbage.held_in(heap, Holder::Local(me), self.era())
        &&& held(heap, self.garbage.new@, Holder::Local(me), global)
        &&& 0 <= self.era() <= global
        &&& self.epoch == word_of(self.era())
        &&& self.in_critical > 0 ==> self.active && global <= self.era() + 1
        &&& !self.active ==> self.garbage.is_empty()
        &&& !self.unlinked
    }

    /// The local epoch as a count of advances.
    pub open spec fn era(&self) -> int {
        self.age@
    }

    /// How many of the items that may be freed one collection covers: all
    /// of them, unless there are more than `usize::MAX`.
    pub open spec fn budget_covers(garbage: Local) -> int {
        vstd::math::min(usize::MAX as int, garbage.stale().len() as int)
    }

    /// Whether the record is as a thread that has just come into being
    /// has it: active, not pinned, at epoch 0 and without garbage.
    pub open spec fn fresh(&self) -> bool {
        &&& self.epoch == 0
        &&& self.era() == 0
        &&& self.in_critical == 0
        &&& self.active
        &&& !self.unlinked
        &&& self.garbage.is_empty()
        &&& self.garbage.pending.wf()
    }

    /// A fresh record is in order at every address and every epoch.
    pub proof fn lemma_fresh_inv(&self, heap: &Heap, me: usize, global: int)
        requires
            self.fresh(),
            0 <= global,
        ensures
            self.inv(heap, me, global),
    {
        self.garbage.lemma_empty_held(heap, Holder::Local(me), self.era());
        lemma_modulus();
    }

    /// Whether the participant is in a critical section.
    pub open spec fn pinned(&self) -> bool {
        self.in_critical > 0
    }

    /// The record of a thread that has just come into being: active, not
    /// pinned, at epoch 0, without garbage, and free to collect.
    pub fn new() -> (p: Participant)
        ensures
            p.try_gc,
            p.next@ == 0,
            p.fresh(),
    {
        Participant {
            epoch: 0,
            age: Ghost(0),
            in_critical: 0,
            active: true,
            unlinked: false,
            try_gc: true,
            garbage: Local::new(),
            next: Atomic::null(),
        }
    }

    /// Enters a critical section. Nested sections only count. The first
    /// one takes over the global epoch; if that has moved on, it frees
    /// what may be freed and rotates the bags. Says whether it did.
    pub fn enter(
        &mut self,
        global_epoch: usize,
        heap: &mut Heap,
        Ghost(me): Ghost<usize>,
        Ghost(global): Ghost<int>,
    ) -> (collected: bool)
        requires
            global_epoch == word_of(global),
            old(self).inv(old(heap), me, global),
            old(heap).wf(),
            old(self).active,
            old(self).in_critical < usize::MAX,
        ensures
            final(self).inv(final(heap), me, global),
            final(heap).wf(),
            final(self).in_critical == old(self).in_critical + 1,
            final(self).active,
            final(self).try_gc == old(self).try_gc,
            final(self).next == old(self).next,
            collected == (old(self).in_critical == 0 && old(self).epoch != global_epoch),
            old(self).in_critical == 0 && global <= old(self).era() + 1 ==> collected
                == (old(self).era() != global),
            final(self).era() == (if old(self).in_critical == 0 {
                global
            } else {
                old(self).era()
            }),
            !collected ==> *final(heap) == *old(heap) && final(self).garbage == old(self).garbage,
            collected ==> freed(
                old(heap),
                final(heap),
                old(self).garbage.stale().subrange(0, Self::budget_covers(old(self).garbage)),
            ) && final(self).garbage.pending() == old(self).garbage.stale().subrange(
                Self::budget_covers(old(self).garbage),
                old(self).garbage.stale().len() as int,
            ) && final(self).garbage.old@ == old(self).garbage.cur@ && final(self).garbage.cur@
                == old(self).garbage.new@ && final(self).garbage.new@.len() == 0,
            held(old(heap), old(self).garbage.stale(), Holder::Local(me), old(self).era() - 1),
    {
        proof {
            old(self).garbage.lemma_stale_held(old(heap), Holder::Local(me), old(self).era());
            if global <= old(self).era() + 1 {
                lemma_word_apart(old(self).era(), global);
            }
        }
        let new_count: usize = self.in_critical + 1;
        self.in_critical = new_count;
        if new_count > 1 {
            return false;
        }
        if global_epoch != self.epoch {
            let ghost e0 = self.era();
            let ghost stale = self.garbage.stale();
            self.epoch = global_epoch;
            self.age = Ghost(global);
            assert forall|i: int| 0 <= i < stale.len() implies heap.allocated(stale[i]) by {
                assert(heap.is_retired(stale[i]));
            }
            self.garbage.collect(usize::MAX, heap);
            proof {
                Local::lemma_collect_keeps(
                    &old(self).garbage,
                    &self.garbage,
                    old(heap),
                    heap,
                    Self::budget_covers(old(self).garbage),
                    Holder::Local(me),
                    e0,
                    global,
                );
            }
            return true;
        }
        proof {
            // the same word: the count is taken over without a collection
            self.garbage.lemma_held_later(heap, Holder::Local(me), self.era(), global);
        }
        self.age = Ghost(global);
        false
    }

    /// Takes over the global epoch, which has moved on, frees what may be
    /// freed and rotates the bags.
    pub fn sync(
        &mut self,
        global_epoch: usize,
        heap: &mut Heap,
        Ghost(me): Ghost<usize>,
        Ghost(global): Ghost<int>,
    )
        requires
            global_epoch == word_of(global),
            old(self).inv(old(heap), me, global),
            old(heap).wf(),
            old(self).era() < global,
        ensures
            final(self).inv(final(heap), me, global),
            final(heap).wf(),
            final(self).era() == global,
            final(self).in_critical == old(self).in_critical,
            final(self).active == old(self).active,
            final(self).unlinked == old(self).unlinked,
            final(self).try_gc == old(self).try_gc,
            final(self).next == old(self).next,
            old(heap).reclaimed_from(final(heap), Holder::Local(me), global - 2),
            freed(
                old(heap),
                final(heap),
                old(self).garbage.stale().subrange(0, Self::budget_covers(old(self).garbage)),
            ),
            final(self).garbage.old@ == old(self).garbage.cur@,
            final(self).garbage.cur@ == old(self).garbage.new@,
            final(self).garbage.new@.len() == 0,
            final(self).garbage.pending() == old(self).garbage.stale().subrange(
                Self::budget_covers(old(self).garbage),
                old(self).garbage.stale().len() as int,
            ),
    {
        let ghost e0 = self.era();
        let ghost stale = self.garbage.stale();
        proof {
            self.garbage.lemma_stale_held(heap, Holder::Local(me), e0);
            if !self.active {
                assert(stale.len() == 0);
            }
        }
        self.epoch = global_epoch;
        self.age = Ghost(global);
        assert forall|i: int| 0 <= i < stale.len() implies heap.allocated(stale[i]) by {
            assert(heap.is_retired(stale[i]));
        }
        self.garbage.collect(usize::MAX, heap);
        proof {
            let k = Self::budget_covers(old(self).garbage);
            Local::lemma_collect_keeps(
                &old(self).garbage,
                &self.garbage,
                old(heap),
                heap,
                k,
                Holder::Local(me),
                e0,
                global,
            );
            crate::mem::epoch::garbage::lemma_freed_is_reclaimed(
                old(heap),
                heap,
                stale.subrange(0, k),
                Holder::Local(me),
                global - 2,
            );
            if !self.active {
                assert(self.garbage.pending() =~= Seq::<usize>::empty());
            }
        }
    }

    /// Enters a critical section without collecting: nested sections only
    /// count, the first one takes over the global epoch.
    pub fn enter_nogc(
        &mut self,
        global_epoch: usize,
        Ghost(heap): Ghost<&Heap>,
        Ghost(me): Ghost<usize>,
        Ghost(global): Ghost<int>,
    )
        requires
            global_epoch == word_of(global),
            old(self).inv(heap, me, global),
            old(self).active,
            old(self).in_critical < usize::MAX,
        ensures
            final(self).inv(heap, me, global),
            final(self).in_critical == old(self).in_critical + 1,
            final(self).active,
            final(self).try_gc == old(self).try_gc,
            final(self).next == old(self).next,
            final(self).garbage == old(self).garbage,
            final(self).era() == (if old(self).in_critical == 0 {
                global
            } else {
                old(self).era()
            }),
    {
        let new_count: usize = self.in_critical + 1;
        self.in_critical = new_count;
        if new_count > 1 {
            return ;
        }
        proof {
            self.garbage.lemma_held_later(
                heap,
                Holder::Local(me),
                self.era(),
                global,
            );
        }
        self.epoch = global_epoch;
        self.age = Ghost(global);
    }

    /// Leaves the current (nested) critical section.
    pub fn exit(&mut self)
        requires
            old(self).in_critical > 0,
        ensures
            final(self).in_critical == old(self).in_critical - 1,
            final(self).era() == old(self).era(),
            final(self).epoch == old(self).epoch,
            final(self).epoch == old(self).epoch,
            final(self).active == old(self).active,
            final(self).unlinked == old(self).unlinked,
            final(self).try_gc == old(self).try_gc,
            final(self).next == old(self).next,
            final(self).garbage == old(self).garbage,
    {
        let new_count: usize = self.in_critical - 1;
        self.in_critical = new_count;
    }

    /// Takes charge of the live cell at `data`, which was unlinked: the
    /// cell is retired at the global epoch and joins the newest bag.
    pub fn reclaim(
        &mut self,
        data: usize,
        heap: &mut Heap,
        Ghost(me): Ghost<usize>,
        Ghost(global): Ghost<int>,
    )
        requires
            old(self).inv(old(heap), me, global),
            old(heap).wf(),
            old(self).pinned(),
            old(heap).is_live(data),
        ensures
            final(self).inv(final(heap), me, global),
            final(heap).wf(),
            final(heap).is_retired(data),
            final(heap).kind(data) == old(heap).kind(data),
            final(heap).stamp(data) == global,
            final(heap).holder(data) == Holder::Local(me),
            forall|b: usize| b != data ==> old(heap).same_cell(final(heap), b),
            final(self).era() == old(self).era(),
            final(self).epoch == old(self).epoch,
            final(self).epoch == old(self).epoch,
            final(self).in_critical == old(self).in_critical,
            final(self).active == old(self).active,
            final(self).try_gc == old(self).try_gc,
            final(self).next == old(self).next,
            final(self).garbage.new@ == old(self).garbage.new@.push(data),
            final(self).garbage.old == old(self).garbage.old,
            final(self).garbage.cur == old(self).garbage.cur,
            final(self).garbage.pending == old(self).garbage.pending,
    {
        heap.retire(data, Ghost(global), Ghost(Holder::Local(me)));
        self.garbage.insert(data);
        proof {
            Local::lemma_insert_keeps(
                &old(self).garbage,
                &self.garbage,
                old(heap),
                heap,
                data,
                Holder::Local(me),
                self.era(),
            );
            let fresh = self.garbage.new@;
            let before = old(self).garbage.new@;
            assert forall|i: int| 0 <= i < fresh.len() implies heap.is_retired(#[trigger] fresh[i])
                && heap.holder(fresh[i]) == Holder::Local(me) && heap.stamp(fresh[i])
                <= global by {
                if i < before.len() {
                    assert(fresh[i] == before[i]);
                    assert(old(heap).is_retired(before[i]));
                    assert(old(heap).same_cell(heap, before[i]));
                }
            }
        }
    }

    /// How many items the three bags hold (`usize::MAX` if more).
    pub fn garbage_size(&self) -> (n: usize)
        ensures
            n == vstd::math::min(
                (self.garbage.old@.len() + self.garbage.cur@.len()
                    + self.garbage.new@.len()) as int,
                usize::MAX as int,
            ),
    {
        self.garbage.size()
    }

    /// Whether a collection is due: the bags hold more than `GC_THRESH`
    /// items, or the global bags hold garbage.
    pub fn needs_gc(&self, do_global: bool) -> (r: bool)
        ensures
            r == (self.garbage.old@.len() + self.garbage.cur@.len() + self.garbage.new@.len()
                > GC_THRESH || do_global),
    {
        self.garbage_size() > GC_THRESH || do_global
    }

    /// Tries to advance the global epoch, for the participant that holds
    /// `guard`. Says whether it did.
    pub fn try_collect(state: &mut EpochState, guard: &mut Guard) -> (advanced: bool)
        requires
            old(state).wf(),
            old(state).participants.listed(old(guard).owner()),
            old(state).pinned(old(guard).owner()),
        ensures
            final(state).wf(),
            final(guard).owner() == old(guard).owner(),
            final(guard).since() == (if advanced {
                final(state).local_epoch(old(guard).owner())
            } else {
                old(guard).since()
            }),
            old(state).collected(final(state), old(guard).owner(), advanced),
    {
        state.try_collect(guard)
    }

    /// Tries to advance the global epoch if a collection is due for the
    /// participant that holds `guard`: if its bags hold more than
    /// `GC_THRESH` items or the global bags hold garbage. Says whether the
    /// epoch advanced.
    pub fn gc_if_needed(state: &mut EpochState, guard: &mut Guard) -> (advanced: bool)
        requires
            old(state).wf(),
            old(state).participants.listed(old(guard).owner()),
            old(state).pinned(old(guard).owner()),
        ensures
            final(state).wf(),
            final(guard).owner() == old(guard).owner(),
            final(guard).since() == (if advanced {
                final(state).local_epoch(old(guard).owner())
            } else {
                old(guard).since()
            }),
            Self::collection_due(old(state), old(guard).owner()) ==> old(state).collected(
                final(state),
                old(guard).owner(),
                advanced,
            ),
            !Self::collection_due(old(state), old(guard).owner()) ==> !advanced && *final(state)
                == *old(state),
    {
        let due = state.participants.get(guard.participant(),
            &state.heap).needs_gc(state.do_global);
        if due {
            state.try_collect(guard)
        } else {
            false
        }
    }

    /// Whether a collection is due for `me`.
    pub open spec fn collection_due(state: &EpochState, me: usize) -> bool {
        let g = state.record(me).garbage;
        g.old@.len() + g.cur@.len() + g.new@.len() > GC_THRESH || state.do_global
    }

    /// Moves the garbage of the participant that holds `guard` into the
    /// global bags.
    pub fn migrate_garbage(state: &mut EpochState, guard: &Guard)
        requires
            old(state).wf(),
            old(state).participants.listed(guard.owner()),
            old(state).pinned(guard.owner()),
        ensures
            final(state).wf(),
            old(state).migrated(final(state), guard.owner()),
    {
        state.migrate_garbage(guard.participant())
    }
}

} // verus!
