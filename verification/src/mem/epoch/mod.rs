//! Epoch-based memory reclamation.
//!
//! A thread pins the current epoch before it reads pointers out of a shared
//! structure, and unpins when it is done. A node that was unlinked from a
//! structure is not freed at once: it waits in a garbage bag until the
//! global epoch has advanced twice, which it cannot do while a thread that
//! was pinned before the unlinking is still pinned.
//!
//! The state that the threads of a process share is an `EpochState` value
//! that is handed to every operation, together with the address of the
//! calling thread's participant record.

use crate::mem::epoch::global::EpochState;
use crate::mem::epoch::heap::{Holder, RECORD_KIND};
use crate::mem::epoch::participant::GC_THRESH;
use vstd::prelude::*;

pub mod garbage;
pub mod global;
pub mod heap;
pub mod options;
pub mod participant;
pub mod participants;
pub mod protocol;

verus! {

/// Like `Box<T>`: a value on its way into a shared structure, owned by one
/// thread and not yet published.
pub struct Owned<T> {
    data: Box<T>,
}

impl<T> Owned<T> {
    /// The value owned.
    pub closed spec fn view(&self) -> T {
        *self.data
    }

    /// Moves `t` into a new owned box.
    pub fn new(t: T) -> (o: Owned<T>)
        ensures
            o@ == t,
    {
        Owned { data: Box::new(t) }
    }

    /// Moves the value out of the box.
    pub fn into_inner(self) -> (t: T)
        ensures
            t == self@,
    {
        *self.data
    }

    /// Borrows the value, to change it before it is published.
    pub fn get_mut(&mut self) -> (r: &mut T)
        ensures
            *r == old(self)@,
            final(self)@ == *final(r),
    {
        &mut *self.data
    }
}

impl<T> std::ops::Deref for Owned<T> {
    type Target = T;

    fn deref(&self) -> (r: &T)
        ensures
            *r == self@,
    {
        &*self.data
    }
}

/// A pointer to a published value, valid while the guard under which it
/// was read is held.
#[derive(Clone, Copy, Debug, PartialEq, Eq, Structural)]
pub struct Shared {
    ptr: usize,
}

impl Shared {
    /// The address pointed to; never 0.
    pub closed spec fn addr(&self) -> usize {
        self.ptr
    }

    #[verifier::type_invariant]
    spec fn not_null(self) -> bool {
        self.ptr != 0
    }

    /// Makes a pointer of a raw address; `None` for the null address.
    pub fn from_raw(raw: usize) -> (r: Option<Shared>)
        ensures
            raw == 0 ==> r is None,
            raw != 0 ==> r is Some && r->0.addr() == raw,
    {
        if raw == 0 {
            None
        } else {
            Some(Shared { ptr: raw })
        }
    }

    /// The address pointed to, which is not null.
    pub fn as_raw(&self) -> (raw: usize)
        ensures
            raw == self.addr(),
            raw != 0,
    {
        proof {
            use_type_invariant(self);
        }
        self.ptr
    }
}

/// The raw address of an optional pointer: 0 for none.
pub open spec fn opt_addr(p: Option<Shared>) -> usize {
    match p {
        Some(s) => s.addr(),
        None => 0,
    }
}

/// The raw address of an optional pointer: 0 for none.
pub fn opt_shared_into_raw(val: Option<Shared>) -> (raw: usize)
    ensures
        raw == opt_addr(val),
{
    match val {
        Some(p) => p.as_raw(),
        None => 0,
    }
}

/// The values of one type that were published, each under the address of
/// the heap cell that was allocated for it.
pub struct Arena<T> {
    slots: Vec<Option<T>>,
    kind: usize,
}

impl<T> Arena<T> {
    /// The kind under which this arena allocates its cells.
    pub closed spec fn kind(&self) -> usize {
        self.kind
    }

    /// Whether a value is stored under `a`.
    pub closed spec fn has(&self, a: usize) -> bool {
        1 <= a <= self.slots@.len() && self.slots@[a - 1] is Some
    }

    /// The value stored under `a`.
    pub closed spec fn at(&self, a: usize) -> T {
        self.slots@[a - 1]->0
    }

    /// Whether `p` may be read through: its cell is allocated, is of this
    /// arena's kind, and its value is here.
    pub open spec fn readable(&self, heap: &heap::Heap, a: usize) -> bool {
        &&& heap.allocated(a)
        &&& heap.kind(a) == self.kind()
        &&& self.has(a)
    }

    /// The value under `a` is the same in `self` and `then`.
    pub open spec fn same_at(&self, then: &Arena<T>, a: usize) -> bool {
        then.has(a) == self.has(a) && (self.has(a) ==> then.at(a) == self.at(a))
    }

    /// An arena without values, for cells of the given kind.
    pub fn new(kind: usize) -> (r: Arena<T>)
        ensures
            r.kind() == kind,
            forall|a: usize| !r.has(a),
    {
        Arena { slots: Vec::new(), kind }
    }

    /// The kind under which this arena allocates its cells.
    pub fn kind_tag(&self) -> (k: usize)
        ensures
            k == self.kind(),
    {
        self.kind
    }

    /// Stores `t` under the address `a`.
    pub fn put(&mut self, a: usize, t: T)
        requires
            a != 0,
        ensures
            final(self).kind() == old(self).kind(),
            final(self).has(a),
            final(self).at(a) == t,
            forall|b: usize| b != a ==> old(self).same_at(final(self), b),
    {
        while self.slots.len() < a
            invariant
                self.kind == old(self).kind,
                old(self).slots@.len() <= self.slots@.len(),
                forall|i: int|
                    0 <= i < old(self).slots@.len() ==> self.slots@[i] == old(self).slots@[i],
                forall|i: int|
                    old(self).slots@.len() <= i < self.slots@.len() ==> self.slots@[i] is None,
            decreases a - self.slots@.len(),
        {
            self.slots.push(None);
        }
        self.slots[a - 1] = Some(t);
    }

    /// Publishes an owned value: allocates a cell for it and stores it
    /// under the cell's address.
    pub fn publish(&mut self, val: Owned<T>, heap: &mut heap::Heap) -> (p: Shared)
        requires
            old(heap).wf(),
        ensures
            final(heap).wf(),
            p.addr() != 0,
            !old(heap).allocated(p.addr()),
            final(heap).is_live(p.addr()),
            final(heap).kind(p.addr()) == old(self).kind(),
            forall|b: usize| b != p.addr() ==> old(heap).same_cell(final(heap), b),
            final(self).kind() == old(self).kind(),
            final(self).has(p.addr()),
            final(self).at(p.addr()) == val@,
            forall|b: usize| b != p.addr() ==> old(self).same_at(final(self), b),
    {
        let a: usize = heap.allocate(self.kind);
        self.put(a, val.into_inner());
        Shared { ptr: a }
    }

    /// Moves the value under `a` out of the arena. The cell stays as it is
    /// in the heap; its value is gone until one is put back.
    pub fn take(&mut self, a: usize) -> (t: T)
        requires
            old(self).has(a),
        ensures
            t == old(self).at(a),
            a != 0,
            final(self).kind() == old(self).kind(),
            !final(self).has(a),
            forall|b: usize| b != a ==> old(self).same_at(final(self), b),
    {
        self.slots[a - 1].take().unwrap()
    }

    /// Reads through `p`.
    pub fn get(&self, p: Shared, heap: &heap::Heap) -> (r: &T)
        requires
            self.readable(heap, p.addr()),
        ensures
            *r == self.at(p.addr()),
    {
        let slot: &Option<T> = &self.slots[p.ptr - 1];
        slot.as_ref().unwrap()
    }

    /// Borrows the value that `p` points to, to update it in place.
    pub fn get_mut(&mut self, p: Shared, heap: &heap::Heap) -> (r: &mut T)
        requires
            old(self).readable(heap, p.addr()),
        ensures
            *r == old(self).at(p.addr()),
            final(self).kind() == old(self).kind(),
            final(self).has(p.addr()),
            final(self).at(p.addr()) == *final(r),
            forall|b: usize| b != p.addr() ==> old(self).same_at(final(self), b),
    {
        let slot: &mut Option<T> = &mut self.slots[p.ptr - 1];
        slot.as_mut().unwrap()
    }
}

/// Witness that a participant is pinned. Pinning hands one out and takes
/// it back at the end of the critical section.
#[must_use]
pub struct Guard {
    participant: usize,
    since: Ghost<int>,
}

impl Guard {
    /// The address of the record of the participant that holds the guard.
    pub closed spec fn owner(&self) -> usize {
        self.participant
    }

    /// The local epoch of the participant when it took the guard, or when
    /// it last advanced the epoch under it.
    pub closed spec fn since(&self) -> int {
        self.since@
    }

    /// Whether the guard covers what its participant reads in `state`: the
    /// participant is pinned, at the local epoch at which it took the
    /// guard. What it has read since then stays allocated as long as the
    /// guard covers. A guard covers until it is released, unless its
    /// participant itself advances the epoch under it: then the local
    /// epoch moves on, and pointers that were read before are to be read
    /// again.
    pub open spec fn covers(&self, state: &EpochState) -> bool {
        &&& state.participants.listed(self.owner())
        &&& state.pinned(self.owner())
        &&& state.local_epoch(self.owner()) == self.since()
    }

    /// A guard for `participant`, who is pinned at the local epoch
    /// `since`.
    pub(crate) fn held_by(participant: usize, Ghost(since): Ghost<int>) -> (g: Guard)
        ensures
            g.owner() == participant,
            g.since() == since,
    {
        Guard { participant, since: Ghost(since) }
    }

    /// Makes the guard one that was taken at the local epoch that its
    /// participant has in `state`.
    pub(crate) fn renew(&mut self, Ghost(state): Ghost<&EpochState>)
        ensures
            final(self).owner() == old(self).owner(),
            final(self).since() == state.local_epoch(old(self).owner()),
    {
        self.since = Ghost(state.local_epoch(self.participant));
    }

    /// The address of the record of the participant that holds the guard.
    pub fn participant(&self) -> (p: usize)
        ensures
            p == self.owner(),
    {
        self.participant
    }
}

/// How an access to a shared cell is ordered against the accesses around
/// it. The model runs one step at a time, so the orders differ only in
/// which operations accept them.
#[derive(Clone, Copy, Debug, PartialEq, Eq, Structural)]
pub enum MemOrder {
    Relaxed,
    Release,
    Acquire,
    AcqRel,
    SeqCst,
}

/// Whether a load may have the order `ord`.
pub open spec fn load_order(ord: MemOrder) -> bool {
    ord != MemOrder::Release && ord != MemOrder::AcqRel
}

/// Whether a store may have the order `ord`.
pub open spec fn store_order(ord: MemOrder) -> bool {
    ord != MemOrder::Acquire && ord != MemOrder::AcqRel
}

/// A nullable pointer cell that threads share. Pointers are read out of it
/// under a guard and written into it with or without one.
pub struct Atomic {
    ptr: usize,
}

impl Atomic {
    /// The raw address held: 0 for null.
    pub closed spec fn view(&self) -> usize {
        self.ptr
    }

    /// A null pointer cell.
    pub fn null() -> (r: Atomic)
        ensures
            r@ == 0,
    {
        Atomic { ptr: 0 }
    }

    /// Whether the cell holds the null pointer.
    pub fn is_null(&self) -> (r: bool)
        ensures
            r == (self@ == 0),
    {
        self.ptr == 0
    }

    /// Reads the pointer held. The result is tied to `guard`: it may be
    /// read through as long as that guard is held.
    pub fn load(&self, ord: MemOrder, guard: &Guard) -> (r: Option<Shared>)
        requires
            load_order(ord),
        ensures
            opt_addr(r) == self@,
            r is None <==> self@ == 0,
    {
        Shared::from_raw(self.ptr)
    }

    /// Publishes `val`, if any, and stores the pointer to it; stores null
    /// for `None`. Ownership of the value passes to the structure.
    pub fn store<T>(
        &mut self,
        val: Option<Owned<T>>,
        ord: MemOrder,
        arena: &mut Arena<T>,
        heap: &mut heap::Heap,
    )
        requires
            store_order(ord),
            old(heap).wf(),
        ensures
            final(heap).wf(),
            final(arena).kind() == old(arena).kind(),
            val is None ==> final(self)@ == 0 && *final(heap) == *old(heap) && *final(arena)
                == *old(arena),
            val is Some
                ==> published(old(arena), final(arena), old(heap), final(heap), final(self)@,
                val->0@),
    {
        match val {
            Some(owned) => {
                let p = arena.publish(owned, heap);
                self.ptr = p.as_raw();
            },
            None => {
                self.ptr = 0;
            },
        }
    }

    /// Publishes `val`, stores the pointer to it and returns that pointer.
    pub fn store_and_ref<T>(
        &mut self,
        val: Owned<T>,
        ord: MemOrder,
        guard: &Guard,
        arena: &mut Arena<T>,
        heap: &mut heap::Heap,
    ) -> (r: Shared)
        requires
            store_order(ord),
            old(heap).wf(),
        ensures
            final(heap).wf(),
            final(arena).kind() == old(arena).kind(),
            r.addr() == final(self)@,
            published(old(arena), final(arena), old(heap), final(heap), final(self)@, val@),
    {
        let shared = arena.publish(val, heap);
        self.store_shared(Some(shared), ord);
        shared
    }

    /// Stores a pointer that was read or published before.
    pub fn store_shared(&mut self, val: Option<Shared>, ord: MemOrder)
        requires
            store_order(ord),
        ensures
            final(self)@ == opt_addr(val),
    {
        self.ptr = opt_shared_into_raw(val);
    }

    /// If the cell holds `current`, publishes `new` and stores the pointer to
    /// it. Otherwise changes nothing and hands `new` back.
    pub fn cas<T>(
        &mut self,
        current: Option<Shared>,
        new: Option<Owned<T>>,
        ord: MemOrder,
        arena: &mut Arena<T>,
        heap: &mut heap::Heap,
    ) -> (r: Result<(), Option<Owned<T>>>)
        requires
            old(heap).wf(),
        ensures
            final(heap).wf(),
            final(arena).kind() == old(arena).kind(),
            r is Ok <==> old(self)@ == opt_addr(current),
            r matches Err(back) ==> back == new && final(self)@ == old(self)@ && *final(heap)
                == *old(heap) && *final(arena) == *old(arena),
            r is Ok && new is None ==> final(self)@ == 0 && *final(heap) == *old(heap)
                && *final(arena) == *old(arena),
            r is Ok && new is Some ==> published(
                old(arena),
                final(arena),
                old(heap),
                final(heap),
                final(self)@,
                new->0@,
            ),
    {
        if self.ptr == opt_shared_into_raw(current) {
            match new {
                Some(owned) => {
                    let p = arena.publish(owned, heap);
                    self.ptr = p.as_raw();
                },
                None => {
                    self.ptr = 0;
                },
            }
            Ok(())
        } else {
            Err(new)
        }
    }

    /// If the cell holds `current`, publishes `new`, stores the pointer to it
    /// and returns that pointer. Otherwise changes nothing and hands `new`
    /// back.
    pub fn cas_and_ref<T>(
        &mut self,
        current: Option<Shared>,
        new: Owned<T>,
        ord: MemOrder,
        guard: &Guard,
        arena: &mut Arena<T>,
        heap: &mut heap::Heap,
    ) -> (r: Result<Shared, Owned<T>>)
        requires
            old(heap).wf(),
        ensures
            final(heap).wf(),
            final(arena).kind() == old(arena).kind(),
            r is Ok <==> old(self)@ == opt_addr(current),
            r matches Err(back) ==> back == new && final(self)@ == old(self)@ && *final(heap)
                == *old(heap) && *final(arena) == *old(arena),
            r matches Ok(p) ==> p.addr() == final(self)@ && published(
                old(arena),
                final(arena),
                old(heap),
                final(heap),
                final(self)@,
                new@,
            ),
    {
        if self.ptr == opt_shared_into_raw(current) {
            let p = arena.publish(new, heap);
            self.ptr = p.as_raw();
            Ok(p)
        } else {
            Err(new)
        }
    }

    /// If the cell holds `current`, stores `new`; says whether it did.
    pub fn cas_shared(&mut self, current: Option<Shared>, new: Option<Shared>, ord: MemOrder) -> (r:
        bool)
        ensures
            r == (old(self)@ == opt_addr(current)),
            final(self)@ == (if r {
                opt_addr(new)
            } else {
                old(self)@
            }),
    {
        if self.ptr == opt_shared_into_raw(current) {
            self.ptr = opt_shared_into_raw(new);
            true
        } else {
            false
        }
    }

    /// Publishes `new`, if any, stores the pointer to it (null for `None`)
    /// and returns the pointer that the cell held.
    pub fn swap<T>(
        &mut self,
        new: Option<Owned<T>>,
        ord: MemOrder,
        guard: &Guard,
        arena: &mut Arena<T>,
        heap: &mut heap::Heap,
    ) -> (r: Option<Shared>)
        requires
            old(heap).wf(),
        ensures
            final(heap).wf(),
            final(arena).kind() == old(arena).kind(),
            opt_addr(r) == old(self)@,
            new is None ==> final(self)@ == 0 && *final(heap) == *old(heap) && *final(arena)
                == *old(arena),
            new is Some ==> published(
                old(arena),
                final(arena),
                old(heap),
                final(heap),
                final(self)@,
                new->0@,
            ),
    {
        let prev = Shared::from_raw(self.ptr);
        match new {
            Some(owned) => {
                let p = arena.publish(owned, heap);
                self.ptr = p.as_raw();
            },
            None => {
                self.ptr = 0;
            },
        }
        prev
    }

    /// Stores `new` and returns the pointer that the cell held.
    pub fn swap_shared(&mut self, new: Option<Shared>, ord: MemOrder, guard: &Guard) -> (r:
        Option<Shared>)
        ensures
            opt_addr(r) == old(self)@,
            final(self)@ == opt_addr(new),
    {
        let prev = Shared::from_raw(self.ptr);
        self.ptr = opt_shared_into_raw(new);
        prev
    }
}

/// A value `v` was published at the address `a`: the heap has a new live
/// cell there, of the arena's kind, the arena holds `v` under it, and
/// nothing else changed in either.
pub open spec fn published<T>(
    arena0: &Arena<T>,
    arena1: &Arena<T>,
    heap0: &heap::Heap,
    heap1: &heap::Heap,
    a: usize,
    v: T,
) -> bool {
    &&& a != 0
    &&& !heap0.allocated(a)
    &&& heap1.is_live(a)
    &&& heap1.kind(a) == arena0.kind()
    &&& arena1.has(a)
    &&& arena1.at(a) == v
    &&& forall|b: usize| b != a ==> heap0.same_cell(heap1, b)
    &&& forall|b: usize| b != a ==> arena0.same_at(arena1, b)
}

/// Number of local garbage items above which a pin that may not collect
/// moves the local garbage to the global bags.
pub const GC_MIGRATE_THRESH: usize = GC_THRESH * 4;

/// Remembers, for the time that collection is switched on or off for a
/// scope, what the switch was before, so that leaving the scope can put it
/// back.
#[must_use]
pub struct GCControl {
    previous: bool,
    participant: usize,
}

impl GCControl {
    /// What the switch was before the scope.
    pub closed spec fn previous(&self) -> bool {
        self.previous
    }

    /// The participant whose switch this is.
    pub closed spec fn owner(&self) -> usize {
        self.participant
    }

    /// Ends the scope: the switch goes back to what it was before.
    pub fn restore(self, state: &mut EpochState)
        requires
            old(state).wf(),
            old(state).participants.listed(self.owner()),
        ensures
            final(state).wf(),
            final(state).participants.listed(self.owner()),
            final(state).record(self.owner()) == (participant::Participant {
                try_gc: self.previous(),
                ..old(state).record(self.owner())
            }),
            final(state).era() == old(state).era(),
            final(state).epoch == old(state).epoch,
            final(state).do_global == old(state).do_global,
            final(state).garbage == old(state).garbage,
            final(state).heap == old(state).heap,
            final(state).participants.order() == old(state).participants.order(),
            old(state).others_same(final(state), self.owner()),
    {
        set_gc(state, self.participant, self.previous);
    }
}

/// Sets the switch of `me` that allows its pins to collect.
fn set_gc(state: &mut EpochState, me: usize, on: bool)
    requires
        old(state).wf(),
        old(state).participants.listed(me),
    ensures
        final(state).wf(),
        final(state).participants.listed(me),
        final(state).record(me)
            == (participant::Participant { try_gc: on, ..old(state).record(me) }),
        final(state).era() == old(state).era(),
        final(state).epoch == old(state).epoch,
        final(state).do_global == old(state).do_global,
        final(state).garbage == old(state).garbage,
        final(state).heap == old(state).heap,
        final(state).participants.order() == old(state).participants.order(),
        old(state).others_same(final(state), me),
{
    proof {
        old(state).lemma_record_inv(me);
    }
    let mut p = state.participants.take_out(me);
    let ghost taken = state.participants;
    p.try_gc = on;
    state.participants.put_back(me, p);
    proof {
        assert forall|a: usize|
            (old(state).heap.is_retired(a) && old(state).heap.holder(a) != Holder::Local(me)) || (
            old(state).heap.is_live(a) && old(state).heap.kind(a) == RECORD_KIND)
                implies #[trigger] old(state).heap.same_cell(&state.heap, a) by {}
        old(state).lemma_put_back(&taken, state, me);
    }
}

/// Whether pins of `me` may collect garbage.
pub fn is_gc_enabled(state: &EpochState, me: usize) -> (r: bool)
    requires
        state.wf(),
        state.participants.listed(me),
    ensures
        r == state.record(me).try_gc,
{
    state.participants.get(me, &state.heap).try_gc
}

/// Switches collection by pins of `me` on or off and returns the record
/// of what the switch was, with which the caller ends the scope.
pub fn __get_gc_guard_for(state: &mut EpochState, me: usize, turn_on: bool) -> (gcc: GCControl)
    requires
        old(state).wf(),
        old(state).participants.listed(me),
    ensures
        final(state).wf(),
        final(state).participants.listed(me),
        gcc.previous() == old(state).record(me).try_gc,
        gcc.owner() == me,
        final(state).record(me) == (participant::Participant {
            try_gc: turn_on,
            ..old(state).record(me)
        }),
        final(state).era() == old(state).era(),
        final(state).epoch == old(state).epoch,
        final(state).do_global == old(state).do_global,
        final(state).garbage == old(state).garbage,
        final(state).heap == old(state).heap,
        final(state).participants.order() == old(state).participants.order(),
        old(state).others_same(final(state), me),
{
    let gcc = GCControl { previous: is_gc_enabled(state, me), participant: me };
    set_gc(state, me, turn_on);
    gcc
}

impl EpochState {
    /// The number of items in the three bags of `me` once `me` has entered
    /// a critical section: entering one that is not nested, at a global
    /// epoch other than the local one, empties the new bag and frees the
    /// old one.
    pub open spec fn size_entered(&self, me: usize) -> nat {
        let g = self.record(me).garbage;
        if !self.pinned(me) && self.lags(me) {
            g.cur@.len() + g.new@.len()
        } else {
            g.old@.len() + g.cur@.len() + g.new@.len()
        }
    }

    /// The old bag of `me` once it has entered a critical section:
    /// entering one that is not nested, at a global epoch other than the
    /// local one, rotates the bags.
    pub open spec fn old_entered(&self, me: usize) -> Seq<usize> {
        if !self.pinned(me) && self.lags(me) {
            self.record(me).garbage.cur@
        } else {
            self.record(me).garbage.old@
        }
    }

    /// The current bag of `me` once it has entered a critical section.
    pub open spec fn cur_entered(&self, me: usize) -> Seq<usize> {
        if !self.pinned(me) && self.lags(me) {
            self.record(me).garbage.new@
        } else {
            self.record(me).garbage.cur@
        }
    }

    /// The new bag of `me` once it has entered a critical section.
    pub open spec fn new_entered(&self, me: usize) -> Seq<usize> {
        if !self.pinned(me) && self.lags(me) {
            Seq::empty()
        } else {
            self.record(me).garbage.new@
        }
    }

    /// The bag `now` is the bag `was` and, behind it, the records that
    /// were taken off the list between `self` and `then`.
    pub open spec fn grown(&self, then: &EpochState, was: Seq<usize>, now: Seq<usize>) -> bool {
        &&& then.participants.order().len() <= self.participants.order().len()
        &&& now.len() == was.len() + self.participants.order().len()
            - then.participants.order().len()
        &&& now.subrange(0, was.len() as int) =~= was
        &&& forall|i: int|
            was.len() <= i < now.len() ==> self.participants.listed(#[trigger] now[i])
                && !then.participants.listed(now[i])
    }

    /// Whether a pin of `me` that may collect tries to advance the epoch:
    /// it is the first of nested pins, and `me` holds more than
    /// `GC_THRESH` items of garbage once it has entered.
    pub open spec fn pin_attempts(&self, me: usize) -> bool {
        !self.pinned(me) && self.size_entered(me) > GC_THRESH
    }

    /// What `me` frees when it enters a critical section: what it had put
    /// off and its old bag, as far as the budget goes, if the section is
    /// not nested and the epoch has moved on; else nothing.
    pub open spec fn freed_entering(&self, me: usize) -> Seq<usize> {
        if !self.pinned(me) && self.lags(me) {
            self.stale_of(me)
        } else {
            Seq::empty()
        }
    }

    /// What `me` has put off once it has entered a critical section: what
    /// the budget did not cover.
    pub open spec fn pending_entered(&self, me: usize) -> Seq<usize> {
        let g = self.record(me).garbage;
        if !self.pinned(me) && self.lags(me) {
            g.stale().subrange(
                crate::mem::epoch::participant::Participant::budget_covers(g),
                g.stale().len() as int,
            )
        } else {
            g.pending()
        }
    }

    /// What `me` frees, once it has entered a critical section, when it
    /// then advances the epoch: what it has put off and its old bag, as
    /// far as the budget goes.
    pub open spec fn stale_entered(&self, me: usize) -> Seq<usize> {
        let stale = self.pending_entered(me) + self.old_entered(me);
        stale.subrange(0, vstd::math::min(usize::MAX as int, stale.len() as int))
    }

    /// What `gc_done` says of the cell at `a`: it is freed if `me` held
    /// it in what it frees on entering, or, where the epoch advances, in
    /// what it frees then or in the global bag that is due; it is retired
    /// if it is a record that an attempt took off the list; else it is as
    /// it was.
    pub open spec fn gc_at(
        &self,
        then: &EpochState,
        me: usize,
        attempts: bool,
        advances: bool,
        a: usize,
    ) -> bool {
        if self.freed_entering(me).contains(a) || (advances && (self.stale_entered(me).contains(a)
            || crate::mem::epoch::garbage::in_bags(self.garbage@[self.bag_due()]@, 0, a))) {
            !then.heap.allocated(a)
        } else {
            self.heap.same_cell(&then.heap, a) || (attempts && self.participants.listed(a)
                && !then.participants.listed(a) && then.heap.is_retired(a) && then.heap.kind(a)
                == RECORD_KIND && then.heap.holder(a) == Holder::Local(me) && then.heap.stamp(a)
                == self.era())
        }
    }

    /// What `me` makes of the garbage when it enters a critical section
    /// and then, if `attempts` says so, tries to advance the epoch, which
    /// it does if `advances` says so: the bags of `me` are rotated if the
    /// section is not nested and the epoch has moved on, and once more if
    /// the epoch advances;
    /// records that an attempt to advance takes off the list join the
    /// newest bag; the global bag that is due is emptied if the epoch
    /// advances, and no other global bag changes. What leaves a bag on the
    /// way is freed, and no other cell is.
    pub open spec fn gc_done(
        &self,
        then: &EpochState,
        me: usize,
        attempts: bool,
        advances: bool,
    ) -> bool {
        let now = then.record(me).garbage;
        &&& forall|a: usize| #[trigger] self.gc_at(then, me, attempts, advances, a)
        &&& !advances ==> now.pending() == self.pending_entered(me)
        &&& !attempts ==> now.old@ == self.old_entered(me) && now.cur@
            == self.cur_entered(me) && now.new@ == self.new_entered(me) && then.garbage
            == self.garbage && then.participants.order() == self.participants.order()
        &&& attempts && !advances ==> now.old@ == self.old_entered(me)
            && now.cur@ == self.cur_entered(me) && self.grown(then, self.new_entered(me), now.new@)
            && then.garbage == self.garbage
        &&& advances ==> now.old@ == self.cur_entered(me) && now.new@.len() == 0
            && self.grown(then, self.new_entered(me), now.cur@) && self.cleaned(then)
            && then.garbage@.len() == 3 && then.garbage@[self.bag_due()]@.len() == 0 && forall|
            k: int,
        |
            0 <= k < 3 && k != self.bag_due() ==> then.garbage@[k] == self.garbage@[k]
    }

    /// `gc_done`, from what entering and the attempt to advance do.
    pub proof fn lemma_gc_done(
        &self,
        entered: &EpochState,
        then: &EpochState,
        me: usize,
        attempts: bool,
        advanced: bool,
    )
        requires
            entered.record(me).garbage.old@ == self.old_entered(me),
            entered.record(me).garbage.cur@ == self.cur_entered(me),
            entered.record(me).garbage.new@ =~= self.new_entered(me),
            entered.garbage == self.garbage,
            entered.participants.order() == self.participants.order(),
            entered.era() == self.era(),
            self.others_same(entered, me),
            entered.record(me).active == self.record(me).active,
            entered.wf(),
            crate::mem::epoch::garbage::freed(
                &self.heap,
                &entered.heap,
                self.freed_entering(me),
            ),
            entered.record(me).garbage.pending() == self.pending_entered(me),
            !attempts ==> then.record(me).garbage == entered.record(me).garbage && then.garbage
                == entered.garbage && then.participants.order() == entered.participants.order()
                && then.heap == entered.heap,
            attempts && !advanced ==> entered.walked(then, me) && then.garbage == entered.garbage,
            attempts && advanced ==> entered.swept(then, me) && entered.cleaned(then),
        ensures
            self.gc_done(then, me, attempts, attempts && advanced),
    {
        let e = entered.record(me).garbage;
        let now = then.record(me).garbage;
        assert forall|b: usize|
            entered.participants.listed(b) == self.participants.listed(b) by {}
        assert(entered.stale_of(me) =~= self.stale_entered(me)) by {
            assert(e.stale() =~= self.pending_entered(me) + self.old_entered(me));
        }
        let advances = attempts && advanced;
        assert forall|a: usize| #[trigger] self.gc_at(then, me, attempts, advances, a) by {
            assert(crate::mem::epoch::garbage::freed_at(
                &self.heap,
                &entered.heap,
                self.freed_entering(me),
                a,
            ));
            if entered.participants.listed(a) {
                entered.participants.lemma_listed_is_live(&entered.heap, a);
            }
            if attempts && advanced {
                assert(entered.swept_at(then, me, a));
            } else if attempts {
                if entered.heap.same_cell(&then.heap, a) {
                } else {
                }
            }
        }
        if attempts && advanced {
            assert(self.grown(then, self.new_entered(me), now.cur@)) by {
                assert forall|i: int| e.new@.len() <= i < now.cur@.len() implies
                    self.participants.listed(#[trigger] now.cur@[i]) && !then.participants.listed(
                    now.cur@[i],
                ) by {
                    assert(entered.participants.listed(now.cur@[i]));
                }
            }
            assert(entered.bag_due() == self.bag_due());
            assert(self.cleaned(then)) by {
                assert forall|b: usize| #[trigger]
                    then.participants.listed(b) <==> self.participants.listed(b) && self.record(
                        b,
                    ).active by {
                    if self.participants.listed(b) && b != me {
                        assert(entered.record(b) == self.record(b));
                    }
                }
                assert forall|b: usize|
                    (#[trigger] self.participants.listed(b)) && !then.participants.listed(
                        b,
                    ) implies then.heap.is_retired(b) && then.heap.kind(b) == RECORD_KIND by {
                    assert(entered.participants.listed(b));
                }
            }
        } else if attempts {
            assert(self.grown(then, self.new_entered(me), now.new@)) by {
                assert forall|i: int| e.new@.len() <= i < now.new@.len() implies
                    self.participants.listed(#[trigger] now.new@[i]) && !then.participants.listed(
                    now.new@[i],
                ) by {
                    assert(entered.participants.listed(now.new@[i]));
                }
            }
        }
    }

    /// Whether every participant allows the epoch to advance once `me`
    /// has entered a critical section.
    pub open spec fn quiet_entered(&self, me: usize) -> bool {
        &&& forall|b: usize| b != me && (#[trigger] self.participants.listed(b)) ==> self.current(b)
        &&& self.pinned(me) ==> self.local_epoch(me) == self.era()
    }

    /// Whether a pin of `me` that may not collect moves the garbage of `me`
    /// to the global bags: it is the first of nested pins, and `me` holds
    /// more than `GC_MIGRATE_THRESH` items of garbage.
    pub open spec fn pin_migrates(&self, me: usize) -> bool {
        let g = self.record(me).garbage;
        !self.pinned(me) && g.old@.len() + g.cur@.len() + g.new@.len() > GC_MIGRATE_THRESH
    }

    /// Whether a pin of `me` that may collect advances the epoch: it is
    /// the first of nested pins, `me` holds more than `GC_THRESH` items of
    /// garbage, and every participant allows it.
    pub open spec fn pin_advances(&self, me: usize) -> bool {
        !self.pinned(me) && self.size_entered(me) > GC_THRESH && self.quiet_entered(me)
    }
}

/// Pins `me`; the first of nested pins tries to advance the epoch if `me`
/// holds more than `GC_THRESH` items of garbage. A nested pin only counts.
fn _pin_gc(state: &mut EpochState, me: usize) -> (g: Guard)
    requires
        old(state).wf(),
        old(state).enrolled(me),
        old(state).in_critical(me) < usize::MAX,
    ensures
        final(state).wf(),
        g.owner() == me,
        g.covers(final(state)),
        final(state).enrolled(me),
        final(state).in_critical(me) == old(state).in_critical(me) + 1,
        final(state).record(me).try_gc == old(state).record(me).try_gc,
        final(state).era() == (if old(state).pin_advances(me) {
            old(state).era() + 1
        } else {
            old(state).era()
        }),
        final(state).local_epoch(me) == (if old(state).pin_advances(me) {
            old(state).era() + 1
        } else if old(state).pinned(me) {
            old(state).local_epoch(me)
        } else {
            old(state).era()
        }),
        old(state).pinned(me) ==> final(state).heap == old(state).heap && final(state).record(
            me,
        ).garbage == old(state).record(me).garbage && final(state).garbage == old(state).garbage,
        old(state).gc_done(
            final(state),
            me,
            old(state).pin_attempts(me),
            old(state).pin_advances(me),
        ),
        old(state).step(final(state)),
        old(state).list_step(final(state), me),
{
    let first: bool = state.participants.get(me, &state.heap).in_critical == 0;
    state.enter(me);
    let ghost entered = *state;
    let mut g = Guard { participant: me, since: Ghost(state.local_epoch(me)) };
    let size: usize = state.participants.get(me, &state.heap).garbage_size();
    proof {
        entered.lemma_entered_step(old(state), me);
        let e = entered.record(me).garbage;
        assert(e.old@ == old(state).old_entered(me));
        assert(e.cur@ == old(state).cur_entered(me));
        assert(e.new@ =~= old(state).new_entered(me));
        assert((first && size > GC_THRESH) == old(state).pin_attempts(me));
    }
    if first && size > GC_THRESH {
        proof {
            old(state).lemma_quiet_entered(&entered, me);
        }
        let advanced = state.try_collect(&mut g);
        proof {
            assert(advanced == old(state).pin_advances(me));
            old(state).lemma_gc_done(&entered, state, me, true, advanced);
            entered.lemma_steps(old(state), state, me);
        }
    } else {
        proof {
            old(state).lemma_gc_done(&entered, state, me, false, false);
        }
    }
    g
}

/// Pins `me` without collecting. Unless `waitfree`, the first of nested
/// pins moves the garbage of `me` to the global bags if there are more than
/// `GC_MIGRATE_THRESH` items of it. A nested pin only counts.
pub fn _pin_nogc(state: &mut EpochState, me: usize, waitfree: bool) -> (g: Guard)
    requires
        old(state).wf(),
        old(state).enrolled(me),
        old(state).in_critical(me) < usize::MAX,
    ensures
        final(state).wf(),
        g.owner() == me,
        g.covers(final(state)),
        final(state).enrolled(me),
        final(state).in_critical(me) == old(state).in_critical(me) + 1,
        final(state).record(me).try_gc == old(state).record(me).try_gc,
        final(state).era() == old(state).era(),
        final(state).epoch == old(state).epoch,
        final(state).local_epoch(me) == (if old(state).pinned(me) {
            old(state).local_epoch(me)
        } else {
            old(state).era()
        }),
        !waitfree && old(state).pin_migrates(me) ==> final(state).record(me).garbage.is_empty()
            && final(state).bag_views() == old(state).views_migrated(me, old(state).era())
            && final(state).do_global,
        !(!waitfree && old(state).pin_migrates(me)) ==> final(state).record(me).garbage
            == old(state).record(me).garbage && final(state).garbage == old(state).garbage
            && final(state).heap
            == old(state).heap && final(state).do_global == old(state).do_global,
        forall|a: usize| #[trigger] old(state).heap.same_state(&final(state).heap, a),
        old(state).pinned(me) ==> final(state).heap == old(state).heap,
        final(state).participants.order() == old(state).participants.order(),
        old(state).others_same(final(state), me),
{
    let first: bool = state.participants.get(me, &state.heap).in_critical == 0;
    state.enter_nogc(me);
    let ghost entered = *state;
    let size: usize = state.participants.get(me, &state.heap).garbage_size();
    if first && !waitfree && size > GC_MIGRATE_THRESH {
        state.migrate_garbage(me);
        proof {
            assert forall|b: usize| b != me && (#[trigger] old(state).participants.listed(
                b,
            )) implies state.participants.listed(b) && state.participants.record(b)
                == old(state).participants.record(b) by {
                assert(entered.participants.listed(b));
            }
        }
    }
    Guard { participant: me, since: Ghost(state.local_epoch(me)) }
}

/// Pins the current epoch for `me`: enters a critical section, in which
/// every pointer that `me` reads out of a shared structure stays
/// allocated. Pins nest, and a nested pin only counts. The first pin takes
/// over the global epoch; if collection is switched on for `me`, it may
/// collect garbage and advance the epoch, otherwise it may move garbage to
/// the global bags.
pub fn pin(state: &mut EpochState, me: usize) -> (g: Guard)
    requires
        old(state).wf(),
        old(state).enrolled(me),
        old(state).in_critical(me) < usize::MAX,
    ensures
        final(state).wf(),
        g.owner() == me,
        g.covers(final(state)),
        final(state).enrolled(me),
        final(state).in_critical(me) == old(state).in_critical(me) + 1,
        final(state).in_critical(me) == after_pins(old(state).in_critical(me), 1),
        final(state).record(me).try_gc == old(state).record(me).try_gc,
        final(state).era() == (if old(state).record(me).try_gc && old(state).pin_advances(me) {
            old(state).era() + 1
        } else {
            old(state).era()
        }),
        final(state).local_epoch(me) == (if old(state).record(me).try_gc
            && old(state).pin_advances(me) {
            old(state).era() + 1
        } else if old(state).pinned(me) {
            old(state).local_epoch(me)
        } else {
            old(state).era()
        }),
        old(state).pinned(me) ==> final(state).local_epoch(me) == old(state).local_epoch(me)
            && final(state).era() == old(state).era() && final(state).heap == old(state).heap
            && final(state).record(me).garbage == old(state).record(me).garbage
            && final(state).garbage == old(state).garbage,
        !old(state).record(me).try_gc && old(state).pin_migrates(me) ==> final(state).record(
            me,
        ).garbage.is_empty() && final(state).bag_views() == old(state).views_migrated(
            me,
            old(state).era(),
        ) && final(state).do_global,
        !old(state).record(me).try_gc && !old(state).pin_migrates(me) ==> final(state).record(
            me,
        ).garbage == old(state).record(me).garbage && final(state).garbage == old(state).garbage
            && final(state).heap == old(state).heap,
        old(state).record(me).try_gc ==> old(state).gc_done(
            final(state),
            me,
            old(state).pin_attempts(me),
            old(state).pin_advances(me),
        ),
        old(state).step(final(state)),
        old(state).list_step(final(state), me),
{
    proof {
        lemma_nested_pins_balance(old(state).in_critical(me), 1);
    }
    if is_gc_enabled(state, me) {
        _pin_gc(state, me)
    } else {
        let g = _pin_nogc(state, me, false);
        proof {
            old(state).lemma_same_state_step(state, me);
        }
        g
    }
}

/// Pins the current epoch for `me` without collecting garbage. Garbage of
/// `me` beyond `GC_MIGRATE_THRESH` items moves to the global bags.
pub fn pin_nogc(state: &mut EpochState, me: usize) -> (g: Guard)
    requires
        old(state).wf(),
        old(state).enrolled(me),
        old(state).in_critical(me) < usize::MAX,
    ensures
        final(state).wf(),
        g.owner() == me,
        g.covers(final(state)),
        final(state).enrolled(me),
        final(state).in_critical(me) == old(state).in_critical(me) + 1,
        final(state).record(me).try_gc == old(state).record(me).try_gc,
        final(state).era() == old(state).era(),
        final(state).epoch == old(state).epoch,
        final(state).local_epoch(me) == (if old(state).pinned(me) {
            old(state).local_epoch(me)
        } else {
            old(state).era()
        }),
        old(state).pin_migrates(me) ==> final(state).record(me).garbage.is_empty()
            && final(state).bag_views() == old(state).views_migrated(me, old(state).era())
            && final(state).do_global,
        !old(state).pin_migrates(me) ==> final(state).record(me).garbage == old(state).record(
            me,
        ).garbage && final(state).garbage == old(state).garbage && final(state).heap
            == old(state).heap && final(state).do_global == old(state).do_global,
        forall|a: usize| #[trigger] old(state).heap.same_state(&final(state).heap, a),
        final(state).participants.order() == old(state).participants.order(),
        old(state).others_same(final(state), me),
{
    _pin_nogc(state, me, false)
}

/// Pins the current epoch for `me` and neither collects nor moves
/// garbage.
pub fn pin_waitfree(state: &mut EpochState, me: usize) -> (g: Guard)
    requires
        old(state).wf(),
        old(state).enrolled(me),
        old(state).in_critical(me) < usize::MAX,
    ensures
        final(state).wf(),
        g.owner() == me,
        g.covers(final(state)),
        final(state).enrolled(me),
        final(state).in_critical(me) == old(state).in_critical(me) + 1,
        final(state).record(me).try_gc == old(state).record(me).try_gc,
        final(state).era() == old(state).era(),
        final(state).epoch == old(state).epoch,
        final(state).local_epoch(me) == (if old(state).pinned(me) {
            old(state).local_epoch(me)
        } else {
            old(state).era()
        }),
        final(state).record(me).garbage == old(state).record(me).garbage,
        final(state).garbage == old(state).garbage,
        final(state).heap == old(state).heap,
        final(state).participants.order() == old(state).participants.order(),
        old(state).others_same(final(state), me),
{
    state.enter_nogc(me);
    Guard { participant: me, since: Ghost(state.local_epoch(me)) }
}

/// The number of guards that a participant holds after `n` more pins.
pub open spec fn after_pins(count: nat, n: nat) -> nat
    decreases n,
{
    if n == 0 {
        count
    } else {
        after_pins(count + 1, (n - 1) as nat)
    }
}

/// The number of guards that a participant holds after `n` of its guards
/// were released.
pub open spec fn after_releases(count: nat, n: nat) -> nat
    decreases n,
{
    if n == 0 {
        count
    } else {
        after_releases((count - 1) as nat, (n - 1) as nat)
    }
}

/// Pins nest: a pin adds one to the number of guards that the participant
/// holds and a release takes one off, so `n` pins followed by the release
/// of their `n` guards leave the number as it was.
pub proof fn lemma_nested_pins_balance(count: nat, n: nat)
    ensures
        after_pins(count, n) == count + n,
        after_releases(after_pins(count, n), n) == count,
        after_releases(count + n, n) == count,
    decreases n,
{
    if n > 0 {
        lemma_nested_pins_balance(count + 1, (n - 1) as nat);
        lemma_nested_pins_balance(count, (n - 1) as nat);
        assert(after_releases(count + n, n)
            == after_releases((count + n - 1) as nat, (n - 1) as nat));
    }
}

impl Guard {
    /// Ends the critical section that the guard stands for.
    pub fn release(self, state: &mut EpochState)
        requires
            old(state).wf(),
            old(state).participants.listed(self.owner()),
            old(state).pinned(self.owner()),
        ensures
            final(state).wf(),
            final(state).participants.listed(self.owner()),
            final(state).in_critical(self.owner()) == old(state).in_critical(self.owner()) - 1,
            final(state).in_critical(self.owner()) == after_releases(
                old(state).in_critical(self.owner()),
                1,
            ),
            final(state).record(self.owner()).era() == old(state).record(self.owner()).era(),
            final(state).record(self.owner()).active == old(state).record(self.owner()).active,
            final(state).record(self.owner()).try_gc == old(state).record(self.owner()).try_gc,
            final(state).record(self.owner()).garbage == old(state).record(self.owner()).garbage,
            final(state).heap == old(state).heap,
            final(state).era() == old(state).era(),
            final(state).epoch == old(state).epoch,
            final(state).do_global == old(state).do_global,
            final(state).garbage == old(state).garbage,
            final(state).participants.order() == old(state).participants.order(),
            old(state).others_same(final(state), self.owner()),
    {
        proof {
            lemma_nested_pins_balance((old(state).in_critical(self.owner()) - 1) as nat, 1);
        }
        state.exit(self.participant);
    }

    /// Takes charge of the cell that `val` points to, which the caller
    /// has unlinked from its structure so that no new pointer to it can be
    /// read: the cell is retired, and will be freed once the epoch has
    /// advanced twice.
    pub fn unlinked(&self, state: &mut EpochState, val: Shared)
        requires
            old(state).wf(),
            old(state).participants.listed(self.owner()),
            old(state).pinned(self.owner()),
            old(state).heap.is_live(val.addr()),
            old(state).heap.kind(val.addr()) != RECORD_KIND,
        ensures
            final(state).wf(),
            final(state).participants.listed(self.owner()),
            final(state).heap.is_retired(val.addr()),
            final(state).heap.kind(val.addr()) == old(state).heap.kind(val.addr()),
            final(state).heap.stamp(val.addr()) == old(state).era(),
            final(state).heap.holder(val.addr()) == Holder::Local(self.owner()),
            forall|b: usize| b != val.addr() ==> old(state).heap.same_cell(&final(state).heap, b),
            final(state).record(self.owner()).era() == old(state).record(self.owner()).era(),
            final(state).record(self.owner()).in_critical == old(state).record(
                self.owner(),
            ).in_critical,
            final(state).record(self.owner()).active == old(state).record(self.owner()).active,
            final(state).record(self.owner()).try_gc == old(state).record(self.owner()).try_gc,
            final(state).record(self.owner()).garbage.new@ == old(state).record(
                self.owner(),
            ).garbage.new@.push(val.addr()),
            final(state).record(self.owner()).garbage.old == old(state).record(
                self.owner(),
            ).garbage.old,
            final(state).record(self.owner()).garbage.cur == old(state).record(
                self.owner(),
            ).garbage.cur,
            final(state).record(self.owner()).garbage.pending == old(state).record(
                self.owner(),
            ).garbage.pending,
            final(state).era() == old(state).era(),
            final(state).epoch == old(state).epoch,
            final(state).do_global == old(state).do_global,
            final(state).garbage == old(state).garbage,
            final(state).participants.order() == old(state).participants.order(),
            old(state).others_same(final(state), self.owner()),
    {
        state.reclaim(self.participant, val.as_raw());
    }

    /// Moves the garbage of the guard's participant into the global bags.
    pub fn migrate_garbage(&self, state: &mut EpochState)
        requires
            old(state).wf(),
            old(state).participants.listed(self.owner()),
            old(state).pinned(self.owner()),
        ensures
            final(state).wf(),
            old(state).migrated(final(state), self.owner()),
    {
        state.migrate_garbage(self.participant);
    }
}

/// Runs the collector for `me`, if collection is switched on for it:
/// enters a critical section, which collects locally if the epoch has moved
/// on, tries to advance the epoch if `global` is set, and leaves the
/// section. Returns whether the local and the global collection ran;
/// `None` if collection is switched off.
fn _run_gc(state: &mut EpochState, me: usize, global: bool) -> (r: Option<(bool, bool)>)
    requires
        old(state).wf(),
        old(state).enrolled(me),
        old(state).in_critical(me) < usize::MAX,
    ensures
        final(state).wf(),
        final(state).enrolled(me),
        final(state).in_critical(me) == old(state).in_critical(me),
        final(state).record(me).try_gc == old(state).record(me).try_gc,
        r is Some <==> old(state).record(me).try_gc,
        r matches Some(ran) ==> ran.0 == (!old(state).pinned(me) && old(state).lags(me))
            && ran.1 == (global && old(state).quiet_entered(me)),
        final(state).era() == (if old(state).record(me).try_gc && global
            && old(state).quiet_entered(me) {
            old(state).era() + 1
        } else {
            old(state).era()
        }),
        old(state).record(me).try_gc ==> old(state).gc_done(
            final(state),
            me,
            global,
            global && old(state).quiet_entered(me),
        ),
        final(state).local_epoch(me) == (if old(state).record(me).try_gc && global
            && old(state).quiet_entered(me) {
            old(state).era() + 1
        } else if old(state).pinned(me) || !old(state).record(me).try_gc {
            old(state).local_epoch(me)
        } else {
            old(state).era()
        }),
        r is None ==> *final(state) == *old(state),
        old(state).step(final(state)),
        old(state).list_step(final(state), me),
{
    if is_gc_enabled(state, me) {
        let did_local = state.enter(me);
        let ghost entered = *state;
        let mut g = Guard { participant: me, since: Ghost(state.local_epoch(me)) };
        proof {
            entered.lemma_entered_step(old(state), me);
        }
        let mut did_global = false;
        if global {
            proof {
                old(state).lemma_quiet_entered(&entered, me);
            }
            did_global = state.try_collect(&mut g);
            proof {
                entered.lemma_steps(old(state), state, me);
            }
        }
        let ghost collected = *state;
        g.release(state);
        proof {
            collected.lemma_released_step(old(state), state, me);
            assert(collected.record(me).garbage == state.record(me).garbage);
            if global && did_global {
                assert(entered.cleaned(state)) by {
                    assert(entered.cleaned(&collected));
                    assert forall|b: usize| #[trigger]
                        state.participants.listed(b) implies state.record(b).active by {
                        assert(collected.participants.listed(b));
                        assert(collected.record(b).active);
                    }
                }
                assert(entered.swept(state, me)) by {
                    assert(entered.swept(&collected, me));
                    assert forall|a: usize| #[trigger] entered.swept_at(state, me, a) by {
                        assert(entered.swept_at(&collected, me, a));
                    }
                }
            } else if global {
                assert(entered.walked(&collected, me));
                assert(entered.walked(state, me));
            }
            old(state).lemma_gc_done(&entered, state, me, global, did_global);
        }
        return Some((did_local, did_global));
    }
    proof {
        old(state).lemma_same_state_step(state, me);
    }
    None
}

/// Runs the collector for `me`: collects locally, and tries to advance
/// the epoch. Returns whether each of the two happened, or `None` if
/// collection is switched off for `me`.
///
/// A caller that is pinned is to hold no pointer that it read under its
/// guards: if the epoch advances, the local epoch of `me` moves on with
/// it, and the guards that `me` holds cover what was read before no
/// longer.
pub fn try_gc(state: &mut EpochState, me: usize) -> (r: Option<(bool, bool)>)
    requires
        old(state).wf(),
        old(state).enrolled(me),
        old(state).in_critical(me) < usize::MAX,
    ensures
        final(state).wf(),
        final(state).enrolled(me),
        final(state).in_critical(me) == old(state).in_critical(me),
        final(state).record(me).try_gc == old(state).record(me).try_gc,
        r is Some <==> old(state).record(me).try_gc,
        r matches Some(ran) ==> ran.0 == (!old(state).pinned(me) && old(state).lags(me))
            && ran.1 == old(state).quiet_entered(me),
        final(state).era() == (if old(state).record(me).try_gc && old(state).quiet_entered(me) {
            old(state).era() + 1
        } else {
            old(state).era()
        }),
        old(state).record(me).try_gc ==> old(state).gc_done(
            final(state),
            me,
            true,
            old(state).quiet_entered(me),
        ),
        final(state).local_epoch(me) == (if old(state).record(me).try_gc
            && old(state).quiet_entered(me) {
            old(state).era() + 1
        } else if old(state).pinned(me) || !old(state).record(me).try_gc {
            old(state).local_epoch(me)
        } else {
            old(state).era()
        }),
        r is None ==> *final(state) == *old(state),
        old(state).step(final(state)),
        old(state).list_step(final(state), me),
{
    _run_gc(state, me, true)
}

/// Runs the local collector for `me` only; the epoch stays. Returns what
/// the run reports of the global collection, which did not take part:
/// `Some(false)`, or `None` if collection is switched off for `me`.
pub fn try_local_gc(state: &mut EpochState, me: usize) -> (r: Option<bool>)
    requires
        old(state).wf(),
        old(state).enrolled(me),
        old(state).in_critical(me) < usize::MAX,
    ensures
        final(state).wf(),
        final(state).enrolled(me),
        final(state).in_critical(me) == old(state).in_critical(me),
        final(state).record(me).try_gc == old(state).record(me).try_gc,
        r is Some <==> old(state).record(me).try_gc,
        r matches Some(ran) ==> !ran,
        final(state).era() == old(state).era(),
        final(state).epoch == old(state).epoch,
        // a thread that is not pinned takes over the global epoch; if
        // that has moved on, it frees its old bag and rotates its bags
        old(state).record(me).try_gc ==> old(state).gc_done(final(state), me, false, false),
        final(state).local_epoch(me) == (if old(state).record(me).try_gc && !old(state).pinned(
            me,
        ) {
            old(state).era()
        } else {
            old(state).local_epoch(me)
        }),
        r is None ==> *final(state) == *old(state),
        old(state).step(final(state)),
        old(state).list_step(final(state), me),
{
    match _run_gc(state, me, false) {
        Some(rv) => Some(rv.1),
        None => None,
    }
}

} // verus!
