//! The pin and collect protocol, one access to shared memory at a time.
//!
//! `pin`, `Guard::release` and `try_collect` each run as one step. Here the
//! same protocol is cut into the steps between which other threads may
//! run: a thread that pins first raises its counter, then reads the global
//! epoch, then adopts it; a thread that collects reads the global epoch,
//! then looks at one participant after the other, then tries to move the
//! epoch on. The caller decides which thread takes the next step. Whatever
//! the order, a cell that a pinned thread holds a pointer to is not freed,
//! and a cell that was retired is in the bags of the thread that retired
//! it, and of no other, until that thread frees it.
//!
//! The epoch of this machine counts up and does not wrap: it stops at the
//! largest value. Between the first step of a pin and the last, a thread
//! shows a raised counter beside the local epoch that it is about to
//! leave. After a whole round of a counter that wraps, that epoch would
//! pass for the current one, a collector would take the thread for one
//! that is pinned now, and the epoch would move on under a thread that is
//! about to adopt an older one. `EpochState`, where a pin is one step,
//! has no such state, and its counter wraps.

use crate::mem::epoch::garbage::{freed, freed_at, held, lemma_freed_is_reclaimed, Local};
use crate::mem::epoch::heap::{Heap, Holder};
use vstd::prelude::*;

verus! {

/// Where a thread stands.
#[derive(Clone, Copy, Debug, PartialEq, Eq, Structural)]
pub enum Phase {
    /// Not pinned.
    Idle,
    /// About to pin: the counter is raised, the global epoch not read yet.
    Entering,
    /// About to pin: the global epoch was read, at the value given, and is
    /// not adopted yet.
    Adopting(usize),
    /// Pinned.
    Pinned,
    /// Pinned and collecting: the global epoch was read, at the first
    /// value, and the participants before the second were looked at and
    /// allow the epoch to move on.
    Scanning(usize, usize),
}

/// One thread: its participant record, where it stands, and the pointers
/// that it has read since it pinned.
pub struct Thread {
    /// Where the thread stands.
    pub phase: Phase,
    /// The counter of critical sections: 1 from the first step of a pin to
    /// the unpin, else 0.
    pub in_critical: usize,
    /// The local epoch.
    pub epoch: usize,
    /// The thread's garbage.
    pub garbage: Local,
    /// The addresses that the thread has read out of shared structures
    /// since it pinned.
    pub holding: Vec<usize>,
}

/// The threads, the global epoch and the allocator's books.
pub struct Machine {
    /// The global epoch.
    pub global: usize,
    /// The threads that take part.
    pub threads: Vec<Thread>,
    /// The allocator's books.
    pub heap: Heap,
}

/// Whether a thread that stands at `phase` with local epoch `epoch` will be,
/// whenever it is pinned, at epoch `e` or later: so that the global epoch
/// may move on from `e`.
pub open spec fn passed(e: int, phase: Phase, epoch: int) -> bool {
    match phase {
        Phase::Idle => true,
        Phase::Entering => true,
        Phase::Adopting(seen) => seen >= e,
        Phase::Pinned => epoch >= e,
        Phase::Scanning(_, _) => epoch >= e,
    }
}

/// What a thread with the garbage `g` frees when it takes over a new
/// epoch: what it had put off and its old bag, as far as one collection
/// goes.
pub open spec fn stale_of(g: &Local) -> Seq<usize> {
    g.stale().subrange(0, vstd::math::min(usize::MAX as int, g.stale().len() as int))
}

impl Machine {
    /// What holds of thread `t` whatever the order of the steps so far.
    pub open spec fn thread_ok(&self, t: int) -> bool {
        let th = self.threads@[t];
        &&& th.garbage.separate()
        &&& th.garbage.held_in(&self.heap, Holder::Local(t as usize), th.epoch as int)
        &&& held(&self.heap, th.garbage.new@, Holder::Local(t as usize), self.global as int)
        &&& th.epoch <= self.global
        &&& forall|i: int|
            0 <= i < th.holding@.len() ==> self.heap.allocated(#[trigger] th.holding@[i]) && (
            self.heap.is_retired(th.holding@[i]) ==> self.heap.stamp(th.holding@[i]) >= th.epoch)
        &&& match th.phase {
            Phase::Idle => th.in_critical == 0 && th.holding@.len() == 0,
            Phase::Entering => th.in_critical == 1 && th.holding@.len() == 0,
            Phase::Adopting(seen) => th.in_critical == 1 && th.holding@.len() == 0 && th.epoch
                <= seen <= self.global <= seen + 1,
            Phase::Pinned => th.in_critical == 1 && self.global <= th.epoch + 1,
            Phase::Scanning(e, next) => th.in_critical == 1 && self.global <= th.epoch + 1
                && th.holding@.len() == 0 && e <= self.global && next <= self.threads@.len()
                && forall|i: int|
                0 <= i < next ==> passed(
                    e as int,
                    (#[trigger] self.threads@[i]).phase,
                    self.threads@[i].epoch as int,
                ),
        }
    }

    /// The invariant of the protocol.
    pub open spec fn safe(&self) -> bool {
        &&& self.heap.wf()
        &&& self.threads@.len() <= usize::MAX
        &&& forall|t: int| 0 <= t < self.threads@.len() ==> #[trigger] self.thread_ok(t)
    }

    /// Where thread `t` stands.
    pub open spec fn phase(&self, t: usize) -> Phase {
        self.threads@[t as int].phase
    }

    /// Whether thread `t` holds a pointer to the cell at `a`.
    pub open spec fn holds(&self, t: usize, a: usize) -> bool {
        t < self.threads@.len() && self.threads@[t as int].holding@.contains(a)
    }

    /// Nothing is lost: every retired cell is in a bag of the thread that
    /// retired it, from where it is freed once that thread has moved two
    /// epochs on.
    pub open spec fn accounted(&self) -> bool {
        forall|a: usize| #[trigger]
            self.heap.is_retired(a) ==> (self.heap.holder(a) matches Holder::Local(t) && t
                < self.threads@.len() && self.threads@[t as int].garbage.holds(a))
    }

    /// Every retired cell is in the bags of one thread and of no other, and
    /// in those bags once: it will be freed once, by that thread.
    pub proof fn lemma_retired_is_held_once(&self, a: usize, u: usize)
        requires
            self.safe(),
            self.accounted(),
            self.heap.is_retired(a),
            u < self.threads@.len(),
        ensures
            self.heap.holder(a) matches Holder::Local(t) && t < self.threads@.len()
                && self.threads@[t as int].garbage.holds(a)
                    && (self.threads@[u as int].garbage.holds(
                a,
            ) <==> u == t),
            (self.threads@[u as int].garbage.pending() + self.threads@[u as int].garbage.old@
                + self.threads@[u as int].garbage.cur@
                + self.threads@[u as int].garbage.new@).no_duplicates(),
    {
        assert(self.thread_ok(u as int));
        let g = self.threads@[u as int].garbage;
        g.lemma_no_address_twice();
        if g.holds(a) {
            g.lemma_holds_held(&self.heap, Holder::Local(u), self.threads@[u as int].epoch as int,
                a);
        }
    }

    /// The books stay complete over a step of thread `t` that retired only
    /// what it put into its bags and took out of its bags only what it
    /// freed.
    proof fn lemma_accounted_step(&self, then: &Machine, t: usize)
        requires
            self.accounted(),
            t < self.threads@.len(),
            self.others_same(then, t),
            forall|a: usize| #[trigger]
                then.heap.is_retired(a) ==> (self.heap.is_retired(a) && then.heap.holder(a)
                    == self.heap.holder(a)) || (then.heap.holder(a) == Holder::Local(t)
                        && then.threads@[t as int].garbage.holds(a)),
            forall|a: usize|
                #![trigger self.threads@[t as int].garbage.holds(a)]
                self.threads@[t as int].garbage.holds(a) && then.heap.is_retired(a)
                    ==> then.threads@[t as int].garbage.holds(a),
        ensures
            then.accounted(),
    {
        assert forall|a: usize| #[trigger] then.heap.is_retired(a) implies (then.heap.holder(
            a,
        ) matches Holder::Local(u) && u < then.threads@.len()
            && then.threads@[u as int].garbage.holds(a)) by {
            if self.heap.is_retired(a) && then.heap.holder(a) == self.heap.holder(a) {
                match self.heap.holder(a) {
                    Holder::Local(u) => {
                        if u != t {
                            assert(then.threads@[u as int] == self.threads@[u as int]);
                        } else {
                            assert(self.threads@[t as int].garbage.holds(a));
                        }
                    },
                    _ => {},
                }
            }
        }
    }

    /// The books stay complete over a step of thread `t` that left the
    /// heap and the bags as they were.
    proof fn lemma_accounted_kept(&self, then: &Machine, t: usize)
        requires
            self.accounted(),
            t < self.threads@.len(),
            self.others_same(then, t),
            then.heap == self.heap,
            then.threads@[t as int].garbage == self.threads@[t as int].garbage,
        ensures
            then.accounted(),
    {
        self.lemma_accounted_step(then, t);
    }

    /// The books stay complete over a collection by thread `t`.
    proof fn lemma_accounted_collected(&self, then: &Machine, t: usize, k: int)
        requires
            self.accounted(),
            t < self.threads@.len(),
            self.others_same(then, t),
            0 <= k <= self.threads@[t as int].garbage.stale().len(),
            freed(&self.heap, &then.heap, self.threads@[t as int].garbage.stale().subrange(0, k)),
            then.threads@[t as int].garbage.pending() == self.threads@[t as int].garbage.stale(
            ).subrange(k, self.threads@[t as int].garbage.stale().len() as int),
            then.threads@[t as int].garbage.old@ == self.threads@[t as int].garbage.cur@,
            then.threads@[t as int].garbage.cur@ == self.threads@[t as int].garbage.new@,
        ensures
            then.accounted(),
    {
        let before = self.threads@[t as int].garbage;
        let after = then.threads@[t as int].garbage;
        let stale = before.stale();
        let gone = stale.subrange(0, k);
        assert forall|a: usize| #[trigger] then.heap.is_retired(a) implies (self.heap.is_retired(
            a,
        ) && then.heap.holder(a) == self.heap.holder(a)) by {
            assert(freed_at(&self.heap, &then.heap, gone, a));
        }
        assert forall|a: usize|
            #![trigger before.holds(a)]
            before.holds(a) && then.heap.is_retired(a) implies after.holds(a) by {
            assert(freed_at(&self.heap, &then.heap, gone, a));
            if stale.contains(a) {
                let i = choose|i: int| 0 <= i < stale.len() && stale[i] == a;
                if i < k {
                    assert(gone[i] == a);
                } else {
                    assert(after.pending()[i - k] == a);
                }
            } else {
                if before.old@.contains(a) {
                    let i = choose|i: int| 0 <= i < before.old@.len() && before.old@[i] == a;
                    assert(stale[before.pending().len() + i] == a);
                }
                if before.pending().contains(a) {
                    let i = choose|i: int|
                        0 <= i < before.pending().len() && before.pending()[i] == a;
                    assert(stale[i] == a);
                }
            }
        }
        self.lemma_accounted_step(then, t);
    }

    /// No use after free: whatever the order in which the threads took
    /// their steps, a cell that a thread holds a pointer to is allocated.
    pub proof fn lemma_held_is_allocated(&self, t: usize, a: usize)
        requires
            self.safe(),
            self.holds(t, a),
        ensures
            self.heap.allocated(a),
            self.phase(t) == Phase::Pinned,
    {
        assert(self.thread_ok(t as int));
        let th = self.threads@[t as int];
        let i = choose|i: int| 0 <= i < th.holding@.len() && th.holding@[i] == a;
        assert(self.heap.allocated(th.holding@[i]));
    }

    /// While a thread is pinned, the global epoch is at most one ahead of
    /// its local epoch.
    pub proof fn lemma_pinned_bounds_epoch(&self, t: usize)
        requires
            self.safe(),
            t < self.threads@.len(),
            self.phase(t) == Phase::Pinned || self.phase(t) matches Phase::Scanning(_, _),
        ensures
            self.threads@[t as int].epoch <= self.global <= self.threads@[t as int].epoch + 1,
    {
        assert(self.thread_ok(t as int));
    }

    /// A machine without threads, at epoch 0, with nothing allocated.
    pub fn new() -> (m: Machine)
        ensures
            m.safe(),
            m.accounted(),
            m.global == 0,
            m.threads@.len() == 0,
            forall|a: usize| !m.heap.allocated(a),
    {
        let m = Machine { global: 0, threads: Vec::new(), heap: Heap::new() };
        proof {
            assert forall|a: usize| !#[trigger] m.heap.is_retired(a) by {
                assert(!m.heap.allocated(a));
            }
        }
        m
    }

    /// What one step of thread `t` may do to the heap: free retired cells
    /// that `t` holds in its bags and that were retired two epochs before
    /// the global epoch that the step leaves, retire a live cell at the
    /// global epoch, or allocate a cell. Every other cell is as it was.
    pub open spec fn heap_step(&self, then: &Machine, t: usize) -> bool {
        forall|a: usize|
            (#[trigger] self.heap.same_cell(&then.heap, a)) || (self.heap.is_retired(a)
                && self.heap.holder(a) == Holder::Local(t) && self.heap.stamp(a) + 2 <= then.global
                && !then.heap.allocated(a)) || (self.heap.is_live(a) && then.heap.is_retired(a)
                && then.heap.holder(a) == Holder::Local(t) && then.heap.stamp(a) == self.global)
                    || (
            !self.heap.allocated(a) && then.heap.is_live(a))
    }

    /// What one step of thread `t` leaves of the other threads: they are
    /// as they were.
    pub open spec fn others_same(&self, then: &Machine, t: usize) -> bool {
        &&& then.threads@.len() == self.threads@.len()
        &&& forall|u: int|
            0 <= u < self.threads@.len() && u != t ==> #[trigger] then.threads@[u]
                == self.threads@[u]
    }

    /// A thread that did not take the step is in order after it.
    proof fn lemma_other_ok(&self, then: &Machine, t: usize, u: int)
        requires
            self.safe(),
            0 <= u < self.threads@.len(),
            u != t,
            t < self.threads@.len(),
            then.threads@.len() >= self.threads@.len(),
            then.threads@.len() <= usize::MAX,
            forall|v: int|
                0 <= v < self.threads@.len() && v != t ==> #[trigger] then.threads@[v]
                    == self.threads@[v],
            self.heap_step(then, t),
            self.global <= then.global <= self.global + 1,
            // the step moved the epoch on only if every thread allowed it
            then.global == self.global + 1 ==> forall|v: int|
                0 <= v < self.threads@.len() ==> passed(
                    self.global as int,
                    (#[trigger] then.threads@[v]).phase,
                    then.threads@[v].epoch as int,
                ),
            // the thread that took the step did not fall behind
            forall|e: int|
                e <= self.global && #[trigger] passed(
                    e,
                    self.threads@[t as int].phase,
                    self.threads@[t as int].epoch as int,
                ) ==> passed(e, then.threads@[t as int].phase,
                    then.threads@[t as int].epoch as int),
        ensures
            then.thread_ok(u),
    {
        assert(self.thread_ok(u));
        let th = self.threads@[u];
        assert(then.threads@[u] == th);
        let me = Holder::Local(u as usize);
        assert forall|a: usize|
            self.heap.is_retired(a) && self.heap.holder(a) == me
                implies #[trigger] self.heap.same_cell(
            &then.heap,
            a,
        ) by {}
        th.garbage.lemma_held_framed(&self.heap, &then.heap, me, th.epoch as int);
        assert(held(&then.heap, th.garbage.new@, me, then.global as int)) by {
            assert(held(&then.heap, th.garbage.new@, me, self.global as int));
        }
        if then.global == self.global + 1 {
            assert(passed(self.global as int, then.threads@[u].phase,
                then.threads@[u].epoch as int));
        }
        assert forall|i: int| 0 <= i < th.holding@.len() implies then.heap.allocated(
            #[trigger] th.holding@[i],
        ) && (then.heap.is_retired(th.holding@[i]) ==> then.heap.stamp(th.holding@[i])
            >= th.epoch) by {
            let a = th.holding@[i];
            assert(self.heap.allocated(th.holding@[i]));
            if self.heap.same_cell(&then.heap, a) {
            } else {
            }
        }
        match th.phase {
            Phase::Scanning(e, next) => {
                assert forall|i: int| 0 <= i < next implies passed(
                    e as int,
                    (#[trigger] then.threads@[i]).phase,
                    then.threads@[i].epoch as int,
                ) by {
                    assert(passed(e as int, self.threads@[i].phase, self.threads@[i].epoch as int));
                    if i != t {
                        assert(then.threads@[i] == self.threads@[i]);
                    }
                }
            },
            _ => {},
        }
    }

    /// Enrols a thread and returns its number.
    pub fn enroll(&mut self) -> (t: usize)
        requires
            old(self).safe(),
            old(self).threads@.len() < usize::MAX,
        ensures
            final(self).safe(),
            old(self).accounted() ==> final(self).accounted(),
            t == old(self).threads@.len(),
            final(self).threads@.len() == t + 1,
            final(self).phase(t) == Phase::Idle,
            final(self).threads@[t as int].epoch == 0,
            final(self).global == old(self).global,
            final(self).heap == old(self).heap,
            forall|u: int| 0 <= u < t ==> #[trigger] final(self).threads@[u]
                == old(self).threads@[u],
    {
        let t = self.threads.len();
        let th = Thread {
            phase: Phase::Idle,
            in_critical: 0,
            epoch: 0,
            garbage: Local::new(),
            holding: Vec::new(),
        };
        proof {
            th.garbage.lemma_empty_held(&self.heap, Holder::Local(t), 0);
        }
        self.threads.push(th);
        proof {
            assert forall|u: int| 0 <= u < self.threads@.len() implies #[trigger] self.thread_ok(
                u,
            ) by {
                if u < t {
                    assert(old(self).thread_ok(u));
                    assert(self.threads@[u] == old(self).threads@[u]);
                    match self.threads@[u].phase {
                        Phase::Scanning(e, next) => {
                            assert forall|i: int| 0 <= i < next implies passed(
                                e as int,
                                (#[trigger] self.threads@[i]).phase,
                                self.threads@[i].epoch as int,
                            ) by {
                                assert(self.threads@[i] == old(self).threads@[i]);
                            }
                        },
                        _ => {},
                    }
                }
            }
        }
        proof {
            if old(self).accounted() {
                assert forall|a: usize| #[trigger] self.heap.is_retired(a) implies (
                self.heap.holder(a) matches Holder::Local(u) && u < self.threads@.len()
                    && self.threads@[u as int].garbage.holds(a)) by {
                    assert(old(self).heap.is_retired(a));
                    match old(self).heap.holder(a) {
                        Holder::Local(u) => {
                            assert(self.threads@[u as int] == old(self).threads@[u as int]);
                        },
                        _ => {},
                    }
                }
            }
        }
        t
    }

    /// Allocates a cell of the given kind, for a node that a thread is
    /// about to publish.
    pub fn allocate(&mut self, t: usize, kind: usize) -> (a: usize)
        requires
            old(self).safe(),
            t < old(self).threads@.len(),
        ensures
            final(self).safe(),
            old(self).accounted() ==> final(self).accounted(),
            a != 0,
            !old(self).heap.allocated(a),
            final(self).heap.is_live(a),
            final(self).heap.kind(a) == kind,
            forall|b: usize| b != a ==> old(self).heap.same_cell(&final(self).heap, b),
            final(self).threads == old(self).threads,
            final(self).global == old(self).global,
    {
        let a = self.heap.allocate(kind);
        proof {
            assert forall|u: int| 0 <= u < self.threads@.len() implies #[trigger] self.thread_ok(
                u,
            ) by {
                old(self).lemma_unmoved_ok(self, u);
            }
        }
        proof {
            if old(self).accounted() {
                assert forall|b: usize| #[trigger] self.heap.is_retired(b)
                    implies old(self).heap.is_retired(b)
                    && self.heap.holder(b) == old(self).heap.holder(b) by {
                    assert(b != a);
                    assert(old(self).heap.same_cell(&self.heap, b));
                }
                old(self).lemma_accounted_step(self, t);
            }
        }
        a
    }

    /// A thread is in order after a step that changed no thread, kept the
    /// epoch and left every allocated cell as it was.
    proof fn lemma_unmoved_ok(&self, then: &Machine, u: int)
        requires
            self.safe(),
            0 <= u < self.threads@.len(),
            then.threads == self.threads,
            then.global == self.global,
            forall|a: usize|
                self.heap.allocated(a) ==> #[trigger] self.heap.same_cell(&then.heap, a),
        ensures
            then.thread_ok(u),
    {
        assert(self.thread_ok(u));
        let th = self.threads@[u];
        let me = Holder::Local(u as usize);
        assert forall|a: usize|
            self.heap.is_retired(a) && self.heap.holder(a) == me
                implies #[trigger] self.heap.same_cell(
            &then.heap,
            a,
        ) by {}
        th.garbage.lemma_held_framed(&self.heap, &then.heap, me, th.epoch as int);
        assert forall|i: int| 0 <= i < th.holding@.len() implies then.heap.allocated(
            #[trigger] th.holding@[i],
        ) && (then.heap.is_retired(th.holding@[i]) ==> then.heap.stamp(th.holding@[i])
            >= th.epoch) by {
            assert(self.heap.allocated(th.holding@[i]));
            assert(self.heap.same_cell(&then.heap, th.holding@[i]));
        }
    }

    /// First step of a pin: thread `t`, which is idle, raises its counter.
    pub fn begin_pin(&mut self, t: usize)
        requires
            old(self).safe(),
            t < old(self).threads@.len(),
            old(self).phase(t) == Phase::Idle,
        ensures
            final(self).safe(),
            old(self).accounted() ==> final(self).accounted(),
            final(self).phase(t) == Phase::Entering,
            final(self).threads@[t as int].in_critical == 1,
            final(self).threads@[t as int].holding == old(self).threads@[t as int].holding,
            final(self).threads@[t as int].epoch == old(self).threads@[t as int].epoch,
            final(self).threads@[t as int].garbage == old(self).threads@[t as int].garbage,
            old(self).others_same(final(self), t),
            final(self).global == old(self).global,
            final(self).heap == old(self).heap,
    {
        proof {
            assert(self.thread_ok(t as int));
        }
        self.threads[t].in_critical = 1;
        self.threads[t].phase = Phase::Entering;
        proof {
            assert forall|u: int| 0 <= u < self.threads@.len() implies #[trigger] self.thread_ok(
                u,
            ) by {
                if u != t {
                    old(self).lemma_other_ok(self, t, u);
                }
            }
        }
        proof {
            if old(self).accounted() {
                old(self).lemma_accounted_kept(self, t);
            }
        }
    }

    /// Second step of a pin: thread `t` reads the global epoch.
    pub fn read_epoch(&mut self, t: usize)
        requires
            old(self).safe(),
            t < old(self).threads@.len(),
            old(self).phase(t) == Phase::Entering,
        ensures
            final(self).safe(),
            old(self).accounted() ==> final(self).accounted(),
            final(self).phase(t) == Phase::Adopting(old(self).global),
            final(self).threads@[t as int].holding == old(self).threads@[t as int].holding,
            final(self).threads@[t as int].epoch == old(self).threads@[t as int].epoch,
            final(self).threads@[t as int].garbage == old(self).threads@[t as int].garbage,
            old(self).others_same(final(self), t),
            final(self).global == old(self).global,
            final(self).heap == old(self).heap,
    {
        proof {
            assert(self.thread_ok(t as int));
        }
        let seen: usize = self.global;
        self.threads[t].phase = Phase::Adopting(seen);
        proof {
            assert forall|u: int| 0 <= u < self.threads@.len() implies #[trigger] self.thread_ok(
                u,
            ) by {
                if u != t {
                    old(self).lemma_other_ok(self, t, u);
                }
            }
        }
        proof {
            if old(self).accounted() {
                old(self).lemma_accounted_kept(self, t);
            }
        }
    }

    /// Last step of a pin: thread `t` adopts the epoch that it read. If
    /// that is not its local epoch, it frees what it may free and rotates
    /// its bags. The thread is pinned from here on.
    pub fn adopt(&mut self, t: usize) -> (collected: bool)
        requires
            old(self).safe(),
            t < old(self).threads@.len(),
            old(self).phase(t) matches Phase::Adopting(_),
        ensures
            final(self).safe(),
            old(self).accounted() ==> final(self).accounted(),
            final(self).phase(t) == Phase::Pinned,
            old(self).phase(t) matches Phase::Adopting(seen)
                && final(self).threads@[t as int].epoch == seen && collected == (seen
                != old(self).threads@[t as int].epoch),
            !collected ==> final(self).threads@[t as int].garbage
                == old(self).threads@[t as int].garbage && final(self).heap == old(self).heap,
            collected ==> final(self).threads@[t as int].garbage.old@
                == old(self).threads@[t as int].garbage.cur@
                && final(self).threads@[t as int].garbage.cur@
                == old(self).threads@[t as int].garbage.new@
                    && final(self).threads@[t as int].garbage.new@.len() == 0,
            // what the old bag held, and what had been put off, is freed
            collected ==> freed(
                &old(self).heap,
                &final(self).heap,
                stale_of(&old(self).threads@[t as int].garbage),
            ),
            old(self).others_same(final(self), t),
            old(self).heap_step(final(self), t),
            old(self).heap.reclaimed_from(
                &final(self).heap,
                Holder::Local(t),
                final(self).global - 2,
            ),
            final(self).threads@[t as int].holding == old(self).threads@[t as int].holding,
            final(self).global == old(self).global,
    {
        proof {
            assert(self.thread_ok(t as int));
        }
        let seen: usize = match self.threads[t].phase {
            Phase::Adopting(seen) => seen,
            _ => 0,
        };
        let mut collected = false;
        if seen != self.threads[t].epoch {
            let ghost e0 = self.threads@[t as int].epoch as int;
            let ghost before = self.threads@[t as int].garbage;
            let ghost stale = before.stale();
            proof {
                before.lemma_stale_held(&self.heap, Holder::Local(t), e0);
                assert forall|i: int| 0 <= i < stale.len() implies self.heap.allocated(
                    stale[i],
                ) by {
                    assert(self.heap.is_retired(stale[i]));
                }
            }
            self.threads[t].epoch = seen;
            self.threads[t].garbage.collect(usize::MAX, &mut self.heap);
            collected = true;
            proof {
                let k = vstd::math::min(usize::MAX as int, stale.len() as int);
                Local::lemma_collect_keeps(
                    &before,
                    &self.threads@[t as int].garbage,
                    &old(self).heap,
                    &self.heap,
                    k,
                    Holder::Local(t),
                    e0,
                    seen as int,
                );
                lemma_freed_is_reclaimed(
                    &old(self).heap,
                    &self.heap,
                    stale.subrange(0, k),
                    Holder::Local(t),
                    seen - 2,
                );
            }
        }
        self.threads[t].phase = Phase::Pinned;
        proof {
            assert forall|a: usize|
                (#[trigger] old(self).heap.same_cell(&self.heap, a)) || (old(self).heap.is_retired(
                    a,
                ) && old(self).heap.holder(a) == Holder::Local(t) && old(self).heap.stamp(a) + 2
                    <= self.global && !self.heap.allocated(a)) || (old(self).heap.is_live(a)
                    && self.heap.is_retired(a) && self.heap.holder(a) == Holder::Local(t)
                    && self.heap.stamp(a) == old(self).global) || (!old(self).heap.allocated(a)
                    && self.heap.is_live(a)) by {
                if old(self).heap.same_cell(&self.heap, a) {
                } else {
                }
            }
            assert forall|u: int| 0 <= u < self.threads@.len() implies #[trigger] self.thread_ok(
                u,
            ) by {
                if u != t {
                    old(self).lemma_other_ok(self, t, u);
                }
            }
        }
        proof {
            if old(self).accounted() {
                if collected {
                    let stale = old(self).threads@[t as int].garbage.stale();
                    old(self).lemma_accounted_collected(
                        self,
                        t,
                        vstd::math::min(usize::MAX as int, stale.len() as int),
                    );
                } else {
                    old(self).lemma_accounted_kept(self, t);
                }
            }
        }
        collected
    }

    /// Thread `t`, which is pinned, reads a pointer to the live cell at `a`
    /// out of a shared structure and holds it from here on.
    pub fn hold(&mut self, t: usize, a: usize)
        requires
            old(self).safe(),
            t < old(self).threads@.len(),
            old(self).phase(t) == Phase::Pinned,
            old(self).heap.is_live(a),
        ensures
            final(self).safe(),
            old(self).accounted() ==> final(self).accounted(),
            final(self).holds(t, a),
            final(self).threads@[t as int].holding@ == old(self).threads@[t as int].holding@.push(
                a,
            ),
            final(self).phase(t) == Phase::Pinned,
            final(self).threads@[t as int].epoch == old(self).threads@[t as int].epoch,
            final(self).threads@[t as int].garbage == old(self).threads@[t as int].garbage,
            old(self).others_same(final(self), t),
            final(self).global == old(self).global,
            final(self).heap == old(self).heap,
    {
        proof {
            assert(self.thread_ok(t as int));
        }
        self.threads[t].holding.push(a);
        proof {
            let now = self.threads@[t as int].holding@;
            assert(now[now.len() - 1] == a);
            assert forall|i: int| 0 <= i < now.len() implies self.heap.allocated(
                #[trigger] now[i],
            ) && (self.heap.is_retired(now[i]) ==> self.heap.stamp(now[i])
                >= self.threads@[t as int].epoch) by {
                if i < now.len() - 1 {
                    assert(now[i] == old(self).threads@[t as int].holding@[i]);
                }
            }
            assert forall|u: int| 0 <= u < self.threads@.len() implies #[trigger] self.thread_ok(
                u,
            ) by {
                if u != t {
                    old(self).lemma_other_ok(self, t, u);
                }
            }
        }
        proof {
            if old(self).accounted() {
                old(self).lemma_accounted_kept(self, t);
            }
        }
    }

    /// Thread `t`, which is pinned, hands over the live cell at `a`, which
    /// it has unlinked from its structure: the cell is retired at the
    /// global epoch and joins the newest bag of `t`. Who holds a pointer to
    /// the cell keeps it.
    pub fn unlink(&mut self, t: usize, a: usize)
        requires
            old(self).safe(),
            t < old(self).threads@.len(),
            old(self).phase(t) == Phase::Pinned,
            old(self).heap.is_live(a),
        ensures
            final(self).safe(),
            old(self).accounted() ==> final(self).accounted(),
            final(self).heap.is_retired(a),
            final(self).heap.stamp(a) == old(self).global,
            final(self).heap.kind(a) == old(self).heap.kind(a),
            forall|b: usize| b != a ==> old(self).heap.same_cell(&final(self).heap, b),
            final(self).phase(t) == Phase::Pinned,
            final(self).threads@[t as int].epoch == old(self).threads@[t as int].epoch,
            final(self).threads@[t as int].holding == old(self).threads@[t as int].holding,
            final(self).threads@[t as int].garbage.new@
                == old(self).threads@[t as int].garbage.new@.push(a),
            final(self).threads@[t as int].garbage.old == old(self).threads@[t as int].garbage.old,
            final(self).threads@[t as int].garbage.cur == old(self).threads@[t as int].garbage.cur,
            final(self).threads@[t as int].garbage.pending()
                == old(self).threads@[t as int].garbage.pending(),
            old(self).others_same(final(self), t),
            old(self).heap_step(final(self), t),
            final(self).global == old(self).global,
    {
        proof {
            assert(self.thread_ok(t as int));
        }
        let ghost before = self.threads@[t as int].garbage;
        self.heap.retire(a, Ghost(self.global as int), Ghost(Holder::Local(t)));
        self.threads[t].garbage.insert(a);
        proof {
            let th = self.threads@[t as int];
            Local::lemma_insert_keeps(
                &before,
                &th.garbage,
                &old(self).heap,
                &self.heap,
                a,
                Holder::Local(t),
                th.epoch as int,
            );
            let fresh = th.garbage.new@;
            assert forall|i: int| 0 <= i < fresh.len() implies self.heap.is_retired(
                #[trigger] fresh[i],
            ) && self.heap.holder(fresh[i]) == Holder::Local(t) && self.heap.stamp(fresh[i])
                <= self.global by {
                if i < before.new@.len() {
                    assert(fresh[i] == before.new@[i]);
                    assert(old(self).heap.is_retired(before.new@[i]));
                    assert(old(self).heap.same_cell(&self.heap, before.new@[i]));
                }
            }
            assert forall|i: int| 0 <= i < th.holding@.len() implies self.heap.allocated(
                #[trigger] th.holding@[i],
            ) && (self.heap.is_retired(th.holding@[i]) ==> self.heap.stamp(th.holding@[i])
                >= th.epoch) by {
                assert(old(self).heap.allocated(old(self).threads@[t as int].holding@[i]));
                if th.holding@[i] != a {
                    assert(old(self).heap.same_cell(&self.heap, th.holding@[i]));
                }
            }
            assert forall|b: usize|
                (#[trigger] old(self).heap.same_cell(&self.heap, b)) || (old(self).heap.is_retired(
                    b,
                ) && old(self).heap.holder(b) == Holder::Local(t) && old(self).heap.stamp(b) + 2
                    <= self.global && !self.heap.allocated(b)) || (old(self).heap.is_live(b)
                    && self.heap.is_retired(b) && self.heap.holder(b) == Holder::Local(t)
                    && self.heap.stamp(b) == old(self).global) || (!old(self).heap.allocated(b)
                    && self.heap.is_live(b)) by {}
            assert forall|u: int| 0 <= u < self.threads@.len() implies #[trigger] self.thread_ok(
                u,
            ) by {
                if u != t {
                    old(self).lemma_other_ok(self, t, u);
                }
            }
        }
        proof {
            if old(self).accounted() {
                let now = self.threads@[t as int].garbage;
                assert(now.new@[now.new@.len() - 1] == a);
                assert forall|b: usize| #[trigger] self.heap.is_retired(b)
                    implies (old(self).heap.is_retired(b)
                    && self.heap.holder(b) == old(self).heap.holder(b))
                    || (self.heap.holder(b) == Holder::Local(t) && now.holds(b)) by {
                    if b != a {
                        assert(old(self).heap.same_cell(&self.heap, b));
                    }
                }
                assert forall|b: usize|
                    #![trigger before.holds(b)]
                    before.holds(b) && self.heap.is_retired(b) implies now.holds(b) by {
                    if before.new@.contains(b) {
                        let i = choose|i: int| 0 <= i < before.new@.len() && before.new@[i] == b;
                        assert(now.new@[i] == b);
                    }
                }
                old(self).lemma_accounted_step(self, t);
            }
        }
    }

    /// Thread `t`, which is pinned, unpins: it lowers its counter and
    /// forgets the pointers that it held.
    pub fn unpin(&mut self, t: usize)
        requires
            old(self).safe(),
            t < old(self).threads@.len(),
            old(self).phase(t) == Phase::Pinned,
        ensures
            final(self).safe(),
            old(self).accounted() ==> final(self).accounted(),
            final(self).phase(t) == Phase::Idle,
            final(self).threads@[t as int].in_critical == 0,
            final(self).threads@[t as int].holding@.len() == 0,
            final(self).threads@[t as int].epoch == old(self).threads@[t as int].epoch,
            final(self).threads@[t as int].garbage == old(self).threads@[t as int].garbage,
            old(self).others_same(final(self), t),
            final(self).global == old(self).global,
            final(self).heap == old(self).heap,
    {
        proof {
            assert(self.thread_ok(t as int));
        }
        self.threads[t].holding.clear();
        self.threads[t].in_critical = 0;
        self.threads[t].phase = Phase::Idle;
        proof {
            assert forall|u: int| 0 <= u < self.threads@.len() implies #[trigger] self.thread_ok(
                u,
            ) by {
                if u != t {
                    old(self).lemma_other_ok(self, t, u);
                }
            }
        }
        proof {
            if old(self).accounted() {
                old(self).lemma_accounted_kept(self, t);
            }
        }
    }

    /// First step of a collection: thread `t`, which is pinned and holds no
    /// pointer, reads the global epoch.
    pub fn begin_collect(&mut self, t: usize)
        requires
            old(self).safe(),
            t < old(self).threads@.len(),
            old(self).phase(t) == Phase::Pinned,
            old(self).threads@[t as int].holding@.len() == 0,
        ensures
            final(self).safe(),
            old(self).accounted() ==> final(self).accounted(),
            final(self).phase(t) == Phase::Scanning(old(self).global, 0),
            final(self).threads@[t as int].holding == old(self).threads@[t as int].holding,
            final(self).threads@[t as int].epoch == old(self).threads@[t as int].epoch,
            final(self).threads@[t as int].garbage == old(self).threads@[t as int].garbage,
            old(self).others_same(final(self), t),
            final(self).global == old(self).global,
            final(self).heap == old(self).heap,
    {
        proof {
            assert(self.thread_ok(t as int));
        }
        let e: usize = self.global;
        self.threads[t].phase = Phase::Scanning(e, 0);
        proof {
            assert forall|u: int| 0 <= u < self.threads@.len() implies #[trigger] self.thread_ok(
                u,
            ) by {
                if u != t {
                    old(self).lemma_other_ok(self, t, u);
                }
            }
        }
        proof {
            if old(self).accounted() {
                old(self).lemma_accounted_kept(self, t);
            }
        }
    }

    /// One step of the walk over the participants: thread `t`, which
    /// collects, looks at the next participant. If that one is pinned at
    /// another epoch than the one that `t` read, the collection is given
    /// up. Says whether the collection goes on.
    pub fn check_next(&mut self, t: usize) -> (goes_on: bool)
        requires
            old(self).safe(),
            t < old(self).threads@.len(),
            old(self).phase(t) matches Phase::Scanning(_, next) && next < old(self).threads@.len(),
        ensures
            final(self).safe(),
            old(self).accounted() ==> final(self).accounted(),
            old(self).phase(t) matches Phase::Scanning(e, next) && goes_on
                == !(old(self).threads@[next as int].in_critical > 0
                && old(self).threads@[next as int].epoch != e)
                && final(self).phase(t) == (if goes_on {
                Phase::Scanning(e, (next + 1) as usize)
            } else {
                Phase::Pinned
            }),
            final(self).threads@[t as int].epoch == old(self).threads@[t as int].epoch,
            final(self).threads@[t as int].garbage == old(self).threads@[t as int].garbage,
            final(self).threads@[t as int].holding == old(self).threads@[t as int].holding,
            old(self).others_same(final(self), t),
            final(self).global == old(self).global,
            final(self).heap == old(self).heap,
    {
        proof {
            assert(self.thread_ok(t as int));
        }
        let (e, next) = match self.threads[t].phase {
            Phase::Scanning(e, next) => (e, next),
            _ => (0, 0),
        };
        proof {
            assert(self.thread_ok(next as int));
        }
        let other_pinned: bool = self.threads[next].in_critical > 0;
        let other_epoch: usize = self.threads[next].epoch;
        let goes_on: bool = !(other_pinned && other_epoch != e);
        if goes_on {
            self.threads[t].phase = Phase::Scanning(e, next + 1);
        } else {
            self.threads[t].phase = Phase::Pinned;
        }
        proof {
            if goes_on {
                assert forall|i: int| 0 <= i < next + 1 implies passed(
                    e as int,
                    (#[trigger] self.threads@[i]).phase,
                    self.threads@[i].epoch as int,
                ) by {
                    if i < next {
                        assert(passed(
                            e as int,
                            old(self).threads@[i].phase,
                            old(self).threads@[i].epoch as int,
                        ));
                        if i != t {
                            assert(self.threads@[i] == old(self).threads@[i]);
                        }
                    } else if i != t {
                        assert(self.threads@[i] == old(self).threads@[i]);
                    }
                }
            }
            assert forall|u: int| 0 <= u < self.threads@.len() implies #[trigger] self.thread_ok(
                u,
            ) by {
                if u != t {
                    old(self).lemma_other_ok(self, t, u);
                }
            }
        }
        proof {
            if old(self).accounted() {
                old(self).lemma_accounted_kept(self, t);
            }
        }
        goes_on
    }

    /// Last step of a collection: thread `t`, which has looked at every
    /// participant, tries to move the global epoch on from the value that
    /// it read. That fails if another thread has moved the epoch on in
    /// the meantime, or if the counter has no room. On success `t` adopts
    /// the new epoch, frees what it may free and rotates its bags. Says
    /// whether it moved the epoch on.
    pub fn advance(&mut self, t: usize) -> (advanced: bool)
        requires
            old(self).safe(),
            t < old(self).threads@.len(),
            old(self).phase(t) matches Phase::Scanning(_, next) && next == old(self).threads@.len(),
        ensures
            final(self).safe(),
            old(self).accounted() ==> final(self).accounted(),
            final(self).phase(t) == Phase::Pinned,
            old(self).phase(t) matches Phase::Scanning(e, _) && advanced == (old(self).global == e
                && e < usize::MAX - 1),
            final(self).global == (if advanced {
                old(self).global + 1
            } else {
                old(self).global as int
            }),
            final(self).threads@[t as int].epoch == (if advanced {
                final(self).global
            } else {
                old(self).threads@[t as int].epoch
            }),
            !advanced ==> final(self).threads@[t as int].garbage
                == old(self).threads@[t as int].garbage && final(self).heap == old(self).heap,
            advanced ==> final(self).threads@[t as int].garbage.old@
                == old(self).threads@[t as int].garbage.cur@
                && final(self).threads@[t as int].garbage.cur@
                == old(self).threads@[t as int].garbage.new@
                    && final(self).threads@[t as int].garbage.new@.len() == 0,
            // what the old bag held, and what had been put off, is freed
            advanced ==> freed(
                &old(self).heap,
                &final(self).heap,
                stale_of(&old(self).threads@[t as int].garbage),
            ),
            old(self).others_same(final(self), t),
            old(self).heap_step(final(self), t),
            old(self).heap.reclaimed_from(
                &final(self).heap,
                Holder::Local(t),
                final(self).global - 2,
            ),
            final(self).threads@[t as int].holding == old(self).threads@[t as int].holding,
    {
        proof {
            assert(self.thread_ok(t as int));
        }
        let e: usize = match self.threads[t].phase {
            Phase::Scanning(e, _) => e,
            _ => 0,
        };
        let mut advanced = false;
        if e < usize::MAX - 1 {
            // the epoch moves on only from the value that was read
            let seen: usize = self.global;
            if seen == e {
                self.global = e + 1;
                advanced = true;
            }
        }
        if advanced {
            let ghost before = self.threads@[t as int].garbage;
            let ghost stale = before.stale();
            proof {
                // the thread looked at itself, too
                assert(passed(
                    e as int,
                    old(self).threads@[t as int].phase,
                    old(self).threads@[t as int].epoch as int,
                ));
                assert(old(self).threads@[t as int].epoch == e);
                before.lemma_stale_held(&self.heap, Holder::Local(t), e as int);
                assert forall|i: int| 0 <= i < stale.len() implies self.heap.allocated(
                    stale[i],
                ) by {
                    assert(self.heap.is_retired(stale[i]));
                }
            }
            self.threads[t].epoch = e + 1;
            self.threads[t].garbage.collect(usize::MAX, &mut self.heap);
            proof {
                let k = vstd::math::min(usize::MAX as int, stale.len() as int);
                Local::lemma_collect_keeps(
                    &before,
                    &self.threads@[t as int].garbage,
                    &old(self).heap,
                    &self.heap,
                    k,
                    Holder::Local(t),
                    e as int,
                    e + 1,
                );
                lemma_freed_is_reclaimed(
                    &old(self).heap,
                    &self.heap,
                    stale.subrange(0, k),
                    Holder::Local(t),
                    e - 1,
                );
            }
        }
        self.threads[t].phase = Phase::Pinned;
        proof {
            assert forall|a: usize|
                (#[trigger] old(self).heap.same_cell(&self.heap, a)) || (old(self).heap.is_retired(
                    a,
                ) && old(self).heap.holder(a) == Holder::Local(t) && old(self).heap.stamp(a) + 2
                    <= self.global && !self.heap.allocated(a)) || (old(self).heap.is_live(a)
                    && self.heap.is_retired(a) && self.heap.holder(a) == Holder::Local(t)
                    && self.heap.stamp(a) == old(self).global) || (!old(self).heap.allocated(a)
                    && self.heap.is_live(a)) by {
                if old(self).heap.same_cell(&self.heap, a) {
                } else {
                }
            }
            if advanced {
                assert forall|v: int| 0 <= v < self.threads@.len() implies passed(
                    e as int,
                    (#[trigger] self.threads@[v]).phase,
                    self.threads@[v].epoch as int,
                ) by {
                    assert(passed(
                        e as int,
                        old(self).threads@[v].phase,
                        old(self).threads@[v].epoch as int,
                    ));
                    if v != t {
                        assert(self.threads@[v] == old(self).threads@[v]);
                    }
                }
            }
            assert forall|u: int| 0 <= u < self.threads@.len() implies #[trigger] self.thread_ok(
                u,
            ) by {
                if u != t {
                    old(self).lemma_other_ok(self, t, u);
                }
            }
        }
        proof {
            if old(self).accounted() {
                if advanced {
                    let stale = old(self).threads@[t as int].garbage.stale();
                    old(self).lemma_accounted_collected(
                        self,
                        t,
                        vstd::math::min(usize::MAX as int, stale.len() as int),
                    );
                } else {
                    old(self).lemma_accounted_kept(self, t);
                }
            }
        }
        advanced
    }
}

} // verus!
