//! The Michael-Scott queue, one access to shared memory at a time.
//!
//! `MsQueue` runs a push or a pop as one step. Here the two are cut into
//! the steps between which other threads may run. A push reads the tail
//! and the link out of the node that it found; if there is no link, it
//! tries to link its node there, and then to swing the tail to its node;
//! if there is a link, the tail is behind, and the push helps it on and
//! starts over. A pop reads the head, the tail and the link out of the
//! head node; if head and tail are one node without a link, the queue is
//! empty; if they are one node with a link, the pop helps the tail on and
//! starts over; else it tries to swing the head to the next node, whose
//! item it returns. The caller decides which thread takes the next step,
//! of a push, of a pop, or of the pin and collect protocol.
//!
//! Whatever the order, the queue stays a well-formed list with the tail at
//! most one node behind its end and never behind the head, a push takes
//! effect at the step that links its node and a pop at the step that
//! swings the head, and no step reads or writes a node that was freed.

use crate::mem::epoch::heap::Holder;
use crate::mem::epoch::participants::successor;
use crate::mem::epoch::protocol::{Machine, Phase};
use crate::mem::epoch::{Arena, Shared};
use crate::sync::order::{fifo_after, taken, Op};
use vstd::prelude::*;

verus! {

/// The kind of the heap cells that hold the nodes of a queue that is run
/// step by step.
pub const QUEUE_STEP_KIND: usize = 6;

/// A node: an item, gone once it was popped, and the address of the next
/// node, 0 for none.
pub struct Cell<T> {
    data: Option<T>,
    next: usize,
}

/// What a thread is about on the queue.
#[derive(Clone, Copy, Debug, PartialEq, Eq, Structural)]
pub enum Job {
    /// Nothing.
    Idle,
    /// A push: the node, at the address given, is filled.
    Push(usize),
    /// A push of the node at the first address: the tail was read to be
    /// the second.
    PushTail(usize, usize),
    /// A push of the node at the first address: the tail was read to be
    /// the second, and the link out of that node to be the third.
    PushNext(usize, usize, usize),
    /// A push: the node, at the first address, is linked behind the node
    /// at the second, and the tail is not swung yet.
    PushLinked(usize, usize),
    /// A pop: nothing is read yet.
    Pop,
    /// A pop: the head was read to be the address given.
    PopHead(usize),
    /// A pop: the head was read to be the first address and the tail to
    /// be the second.
    PopTail(usize, usize),
    /// A pop: the head was read to be the first address, the tail to be
    /// the second, and the link out of the head node to be the third.
    PopNext(usize, usize, usize),
}

/// The node that a thread with the job `j` has allocated and not yet
/// linked.
pub open spec fn unpublished(j: Job) -> Option<usize> {
    match j {
        Job::Push(a) => Some(a),
        Job::PushTail(a, _) => Some(a),
        Job::PushNext(a, _, _) => Some(a),
        _ => None,
    }
}

/// A queue, the threads that work on it, and what each is about.
pub struct Steps<T> {
    ebr: Machine,
    head: usize,
    tail: usize,
    nodes: Arena<Cell<T>>,
    jobs: Vec<Job>,
    chain: Ghost<Seq<usize>>,
    tail_at: Ghost<int>,
}

impl<T> Steps<T> {
    /// The threads, the global epoch and the allocator's books.
    pub closed spec fn machine(&self) -> Machine {
        self.ebr
    }

    /// The threads, the global epoch and the allocator's books.
    pub fn ebr(&self) -> (m: &Machine)
        ensures
            *m == self.machine(),
    {
        &self.ebr
    }

    /// The addresses of the nodes of the list, from the head node on. The
    /// head node holds no item: it is the node whose item was popped last,
    /// or the one that the queue was made with.
    pub closed spec fn nodes(&self) -> Seq<usize> {
        self.chain@
    }

    /// The items in the queue, the oldest first.
    pub closed spec fn view(&self) -> Seq<T> {
        Seq::new((self.chain@.len() - 1) as nat, |i: int| self.nodes.at(self.chain@[i + 1]).data->0)
    }

    /// What thread `t` is about.
    pub closed spec fn job(&self, t: usize) -> Job {
        self.jobs@[t as int]
    }

    /// The item in the node at `a`.
    pub closed spec fn item(&self, a: usize) -> Option<T> {
        self.nodes.at(a).data
    }

    /// The link out of the node at `a`.
    pub closed spec fn link(&self, a: usize) -> usize {
        self.nodes.at(a).next
    }

    /// The address that the head pointer holds.
    pub closed spec fn front(&self) -> usize {
        self.head
    }

    /// The address that the tail pointer holds.
    pub closed spec fn back(&self) -> usize {
        self.tail
    }

    /// The place in `nodes()` of the node that the tail pointer holds.
    pub closed spec fn back_at(&self) -> int {
        self.tail_at@
    }

    /// The node at `a` is one that a thread has allocated and filled, and
    /// that is not linked yet.
    spec fn own(&self, a: usize) -> bool {
        &&& self.ebr.heap.is_live(a)
        &&& self.ebr.heap.kind(a) == QUEUE_STEP_KIND
        &&& self.nodes.has(a)
        &&& self.nodes.at(a).data is Some
        &&& self.nodes.at(a).next == 0
        &&& !self.chain@.contains(a)
    }

    /// The node at `a` was linked: it is on the list, or it was the head
    /// node and is retired.
    spec fn published(&self, a: usize) -> bool {
        &&& self.nodes.has(a)
        &&& self.ebr.heap.kind(a) == QUEUE_STEP_KIND
        &&& self.chain@.contains(a) || self.ebr.heap.is_retired(a)
    }

    /// The node at `a` is not beyond the tail: it is on the list at the
    /// tail's place or before it, or it is retired.
    spec fn behind_tail(&self, a: usize) -> bool {
        self.ebr.heap.is_retired(a) || exists|i: int|
            0 <= i <= self.tail_at@ && i < self.chain@.len() && #[trigger] self.chain@[i] == a
    }

    /// The node at `a` is the head node, or it was and is retired.
    spec fn head_or_gone(&self, a: usize) -> bool {
        self.ebr.heap.is_retired(a) || self.chain@[0] == a
    }

    /// If the node at `a` is the head node, the tail is beyond it.
    spec fn ahead(&self, a: usize) -> bool {
        self.chain@[0] == a ==> self.tail_at@ >= 1
    }

    /// What holds of thread `t` and its job.
    spec fn job_ok(&self, t: int) -> bool {
        let th = self.ebr.threads@[t];
        &&& forall|i: int| 0 <= i < th.holding@.len() ==> self.published(#[trigger] th.holding@[i])
        &&& match self.jobs@[t] {
            Job::Idle => true,
            Job::Push(a) => th.phase == Phase::Pinned && self.own(a),
            Job::PushTail(a, tl) => th.phase == Phase::Pinned && self.own(a)
                && th.holding@.contains(tl) && self.behind_tail(tl),
            Job::PushNext(a, tl, n) => th.phase == Phase::Pinned && self.own(a)
                && th.holding@.contains(tl) && self.behind_tail(tl) && (n != 0
                ==> self.nodes.at(tl).next == n),
            Job::PushLinked(a, tl) => th.phase == Phase::Pinned && a != 0 && th.holding@.contains(
                tl,
            ) && self.nodes.at(tl).next == a,
            Job::Pop => th.phase == Phase::Pinned,
            Job::PopHead(h) => th.phase == Phase::Pinned && th.holding@.contains(h)
                && self.head_or_gone(h),
            Job::PopTail(h, tl) => th.phase == Phase::Pinned && th.holding@.contains(h)
                && self.head_or_gone(h) && (h != tl ==> self.nodes.at(h).next != 0 && self.ahead(
                h,
            )),
            Job::PopNext(h, tl, n) => th.phase == Phase::Pinned && th.holding@.contains(h)
                && self.head_or_gone(h) && n != 0 && self.nodes.at(h).next == n && (h != tl
                ==> self.ahead(h)),
        }
    }

    /// The list is well formed: its nodes are distinct live cells, each
    /// linked to the next and the last to none, each but the first with an
    /// item; the head points to the first, the tail to the last or to the
    /// one before it; and a retired node has a link.
    spec fn list_ok(&self) -> bool {
        let chain = self.chain@;
        &&& self.nodes.kind() == QUEUE_STEP_KIND
        &&& chain.len() >= 1
        &&& forall|i: int, j: int| 0 <= i < j < chain.len() ==> chain[i] != chain[j]
        &&& self.head == chain[0]
        &&& 0 <= self.tail_at@ < chain.len()
        &&& self.tail_at@ >= chain.len() - 2
        &&& self.tail == chain[self.tail_at@]
        &&& forall|i: int|
            0 <= i < chain.len() ==> self.ebr.heap.is_live(#[trigger] chain[i])
                && self.ebr.heap.kind(chain[i]) == QUEUE_STEP_KIND && self.nodes.has(chain[i])
        &&& forall|i: int|
            0 <= i < chain.len() ==> (#[trigger] self.nodes.at(chain[i])).next == successor(
                chain,
                i,
            ) && (i >= 1 ==> self.nodes.at(chain[i]).data is Some)
        &&& forall|a: usize| #[trigger]
            self.ebr.heap.is_retired(a) ==> self.nodes.has(a) && self.ebr.heap.kind(a)
                == QUEUE_STEP_KIND && self.nodes.at(a).next != 0
    }

    /// The node at `a` is the unlinked node of a push that is under way.
    spec fn pushing(&self, a: usize) -> bool {
        exists|t: int| 0 <= t < self.jobs@.len() && unpublished(#[trigger] self.jobs@[t]) == Some(a)
    }

    /// The invariant: the protocol is in order, the list is well formed,
    /// every thread is where its job says, no two threads have the same
    /// unlinked node, and every live cell is a node of the list or the
    /// unlinked node of a push.
    pub closed spec fn ok(&self) -> bool {
        &&& self.ebr.safe()
        &&& self.jobs@.len() == self.ebr.threads@.len()
        &&& self.list_ok()
        &&& forall|t: int| 0 <= t < self.jobs@.len() ==> #[trigger] self.job_ok(t)
        &&& forall|t: int, u: int|
            0 <= t < self.jobs@.len() && 0 <= u < self.jobs@.len() && t != u && unpublished(
                #[trigger] self.jobs@[t],
            ) is Some ==> unpublished(self.jobs@[t]) != unpublished(#[trigger] self.jobs@[u])
        &&& forall|a: usize| #[trigger]
            self.ebr.heap.is_live(a) ==> self.chain@.contains(a) || self.pushing(a)
    }

    /// What a step of thread `t` carries over to the threads that did not
    /// take it: what was linked and is still allocated is linked, with
    /// the link that it had if it had one; the unlinked nodes of the other
    /// threads are as they were; and what was not beyond the tail, was the
    /// head node or had the tail ahead, is so still, if it is allocated.
    spec fn carries(&self, then: &Self, t: usize) -> bool {
        &&& then.jobs@.len() == self.jobs@.len()
        &&& then.ebr.threads@.len() == self.ebr.threads@.len()
        &&& forall|u: int|
            0 <= u < self.jobs@.len() && u != t ==> (#[trigger] then.jobs@[u]) == self.jobs@[u]
        &&& forall|u: int|
            0 <= u < self.jobs@.len() && u != t ==> (#[trigger] then.ebr.threads@[u])
                == self.ebr.threads@[u]
        &&& forall|a: usize|
            (#[trigger] self.published(a)) && then.ebr.heap.allocated(a) ==> then.published(a) && (
            self.nodes.at(a).next != 0 ==> then.nodes.at(a).next == self.nodes.at(a).next)
        &&& forall|a: usize|
            (#[trigger] self.own(a)) && unpublished(self.jobs@[t as int]) != Some(a) ==> then.own(
                a,
            )
        &&& forall|a: usize|
            (#[trigger] self.behind_tail(a)) && then.ebr.heap.allocated(a) ==> then.behind_tail(a)
        &&& forall|a: usize|
            (#[trigger] self.head_or_gone(a)) && then.ebr.heap.allocated(a) ==> then.head_or_gone(
                a,
            ) && (self.ahead(a) ==> then.ahead(a))
    }

    /// A thread other than the one that took a step is in order after the
    /// step.
    proof fn lemma_other_job_ok(&self, then: &Self, t: usize, u: int)
        requires
            self.ok(),
            then.ebr.safe(),
            t < self.jobs@.len(),
            0 <= u < self.jobs@.len(),
            u != t,
            self.carries(then, t),
        ensures
            then.job_ok(u),
    {
        assert(self.job_ok(u));
        assert(then.ebr.thread_ok(u));
        assert(then.ebr.threads@[u] == self.ebr.threads@[u]);
        assert(then.jobs@[u] == self.jobs@[u]);
        let th = then.ebr.threads@[u];
        assert forall|i: int| 0 <= i < th.holding@.len() implies then.published(
            #[trigger] th.holding@[i],
        ) by {
            assert(self.published(self.ebr.threads@[u].holding@[i]));
            assert(then.ebr.heap.allocated(th.holding@[i]));
        }
        assert(unpublished(self.jobs@[u]) is Some ==> unpublished(self.jobs@[u]) != unpublished(
            self.jobs@[t as int],
        ));
        // what the job has read is held, so it is allocated and linked
        let held = match self.jobs@[u] {
            Job::PushTail(_, tl) => tl,
            Job::PushNext(_, tl, _) => tl,
            Job::PushLinked(_, tl) => tl,
            Job::PopHead(h) => h,
            Job::PopTail(h, _) => h,
            Job::PopNext(h, _, _) => h,
            _ => 0,
        };
        if th.holding@.contains(held) {
            let i = choose|i: int| 0 <= i < th.holding@.len() && th.holding@[i] == held;
            assert(self.published(self.ebr.threads@[u].holding@[i]));
            assert(then.ebr.heap.allocated(th.holding@[i]));
        }
        match self.jobs@[u] {
            Job::Push(a) => {
                assert(self.own(a));
            },
            Job::PushTail(a, tl) => {
                assert(self.own(a));
                assert(self.behind_tail(tl));
            },
            Job::PushNext(a, tl, n) => {
                assert(self.own(a));
                assert(self.behind_tail(tl));
            },
            Job::PopHead(h) => {
                assert(self.head_or_gone(h));
            },
            Job::PopTail(h, tl) => {
                assert(self.head_or_gone(h));
            },
            Job::PopNext(h, tl, n) => {
                assert(self.head_or_gone(h));
            },
            _ => {},
        }
    }

    /// The queue is in order after a step of thread `t` that left the list
    /// well formed and thread `t` in order.
    proof fn lemma_carried(&self, then: &Self, t: usize)
        requires
            self.ok(),
            then.ebr.safe(),
            t < self.jobs@.len(),
            self.carries(then, t),
            then.list_ok(),
            then.job_ok(t as int),
            unpublished(then.jobs@[t as int]) matches Some(a) ==> unpublished(
                self.jobs@[t as int],
            ) == Some(a) || !self.ebr.heap.allocated(a),
            forall|a: usize| #[trigger]
                then.ebr.heap.is_live(a) ==> self.ebr.heap.is_live(a) || unpublished(
                    then.jobs@[t as int],
                ) == Some(a),
            forall|a: usize|
                self.chain@.contains(a) && #[trigger] then.ebr.heap.is_live(a)
                    ==> then.chain@.contains(a),
            unpublished(self.jobs@[t as int]) matches Some(a) ==> unpublished(
                then.jobs@[t as int],
            ) == Some(a) || then.chain@.contains(a) || !then.ebr.heap.is_live(a),
        ensures
            then.ok(),
    {
        assert forall|u: int| 0 <= u < then.jobs@.len() implies #[trigger] then.job_ok(u) by {
            if u != t {
                self.lemma_other_job_ok(then, t, u);
            }
        }
        assert forall|v: int, u: int|
            0 <= v < then.jobs@.len() && 0 <= u < then.jobs@.len() && v != u && unpublished(
                #[trigger] then.jobs@[v],
            ) is Some implies unpublished(then.jobs@[v]) != unpublished(
            #[trigger] then.jobs@[u],
        ) by {
            if v != t {
                assert(then.jobs@[v] == self.jobs@[v]);
            }
            if u != t {
                assert(then.jobs@[u] == self.jobs@[u]);
            }
            if unpublished(self.jobs@[v]) is Some {
                assert(unpublished(self.jobs@[v]) != unpublished(self.jobs@[u]));
            }
            let w = if v == t {
                u
            } else {
                v
            };
            assert(self.job_ok(w));
        }
        assert forall|a: usize| #[trigger] then.ebr.heap.is_live(a) implies then.chain@.contains(
            a,
        ) || then.pushing(a) by {
            if unpublished(then.jobs@[t as int]) == Some(a) {
                assert(then.pushing(a));
            } else {
                assert(self.ebr.heap.is_live(a));
                if !self.chain@.contains(a) {
                    assert(self.pushing(a));
                    let u = choose|u: int|
                        0 <= u < self.jobs@.len() && unpublished(#[trigger] self.jobs@[u]) == Some(
                            a,
                        );
                    if u != t {
                        assert(then.jobs@[u] == self.jobs@[u]);
                        assert(then.pushing(a));
                    }
                }
            }
        }
    }

    /// A step of thread `t` that changed neither the list nor the heap
    /// carries everything over.
    proof fn lemma_quiet(&self, then: &Self, t: usize)
        requires
            self.ok(),
            t < self.jobs@.len(),
            then.jobs@.len() == self.jobs@.len(),
            forall|u: int|
                0 <= u < self.jobs@.len() && u != t ==> (#[trigger] then.jobs@[u]) == self.jobs@[u],
            self.ebr.others_same(&then.ebr, t),
            then.ebr.heap == self.ebr.heap,
            then.nodes == self.nodes,
            then.head == self.head,
            then.tail == self.tail,
            then.chain == self.chain,
            then.tail_at == self.tail_at,
        ensures
            self.carries(then, t),
            then.list_ok(),
            then@ == self@,
    {
        assert forall|a: usize| #[trigger] self.behind_tail(a) implies then.behind_tail(a) by {
            if !self.ebr.heap.is_retired(a) {
                let i = choose|i: int|
                    0 <= i <= self.tail_at@ && i < self.chain@.len() && #[trigger] self.chain@[i]
                        == a;
                assert(then.chain@[i] == a);
            }
        }
    }

    /// What `ok` says to the outside: the protocol is in order, a thread
    /// with a job is pinned, the list has a head node, the head pointer
    /// holds the address of the first node and the tail pointer that of
    /// the last or of the one before it, and the node that a job has read
    /// the head or the tail to be and reads or writes through is
    /// allocated.
    pub proof fn lemma_ok(&self, t: usize)
        requires
            self.ok(),
            t < self.machine().threads@.len(),
        ensures
            self.machine().safe(),
            self.nodes().len() == self@.len() + 1,
            self.front() == self.nodes()[0],
            self.front() != 0,
            0 <= self.back_at() < self.nodes().len(),
            self.back_at() >= self.nodes().len() - 2,
            self.back() == self.nodes()[self.back_at()],
            self.link(self.nodes().last()) == 0,
            self.job(t) != Job::Idle ==> self.machine().phase(t) == Phase::Pinned,
            self.job(t) matches Job::PushTail(_, tl) ==> self.machine().holds(t, tl)
                && self.machine().heap.allocated(tl),
            self.job(t) matches Job::PushNext(_, tl, _) ==> self.machine().holds(t, tl)
                && self.machine().heap.allocated(tl),
            self.job(t) matches Job::PushLinked(_, tl) ==> self.machine().holds(t, tl)
                && self.machine().heap.allocated(tl),
            self.job(t) matches Job::PopHead(h) ==> self.machine().holds(t, h)
                && self.machine().heap.allocated(h),
            self.job(t) matches Job::PopTail(h, _) ==> self.machine().holds(t, h)
                && self.machine().heap.allocated(h),
            self.job(t) matches Job::PopNext(h, _, _) ==> self.machine().holds(t, h)
                && self.machine().heap.allocated(h),
    {
        assert(self.job_ok(t as int));
        assert(self.ebr.heap.is_live(self.chain@[0]));
        self.ebr.heap.lemma_null_is_free();
        let last = self.chain@.len() - 1;
        assert(self.nodes.at(self.chain@[last]).next == successor(self.chain@, last));
        match self.job(t) {
            Job::PushTail(_, tl) => {
                self.ebr.lemma_held_is_allocated(t, tl);
            },
            Job::PushNext(_, tl, _) => {
                self.ebr.lemma_held_is_allocated(t, tl);
            },
            Job::PushLinked(_, tl) => {
                self.ebr.lemma_held_is_allocated(t, tl);
            },
            Job::PopHead(h) => {
                self.ebr.lemma_held_is_allocated(t, h);
            },
            Job::PopTail(h, _) => {
                self.ebr.lemma_held_is_allocated(t, h);
            },
            Job::PopNext(h, _, _) => {
                self.ebr.lemma_held_is_allocated(t, h);
            },
            _ => {},
        }
    }

    /// Every node of the list is a live cell, linked to the node behind
    /// it, and the last to none: a link that is not null points to a node
    /// of the list. Every node but the first holds its item.
    pub proof fn lemma_linked(&self, i: int)
        requires
            self.ok(),
            0 <= i < self.nodes().len(),
        ensures
            self.machine().heap.is_live(self.nodes()[i]),
            self.link(self.nodes()[i]) == successor(self.nodes(), i),
            i >= 1 ==> self.item(self.nodes()[i]) == Some(self@[i - 1]),
            forall|j: int| 0 <= j < self.nodes().len() && j != i ==> self.nodes()[j]
                != self.nodes()[i],
    {
        let chain = self.chain@;
        assert(self.ebr.heap.is_live(chain[i]));
        assert(self.nodes.at(chain[i]).next == successor(chain, i));
    }

    /// No cell is a stray: every live cell is a node of the list or the
    /// node of a push that is under way. With the books of the protocol
    /// complete, every allocated cell is one of these or is retired and in
    /// the bags of the thread that popped it.
    pub proof fn lemma_no_stray(&self, a: usize)
        requires
            self.ok(),
            self.machine().heap.is_live(a),
        ensures
            self.nodes().contains(a) || exists|t: usize|
                t < self.machine().threads@.len() && unpublished(#[trigger] self.job(t)) == Some(a),
    {
        if !self.chain@.contains(a) {
            assert(self.pushing(a));
            let t = choose|t: int|
                0 <= t < self.jobs@.len() && unpublished(#[trigger] self.jobs@[t]) == Some(a);
            assert(unpublished(self.job(t as usize)) == Some(a));
        }
    }

    /// What thread `t` is about.
    pub fn job_of(&self, t: usize) -> (j: Job)
        requires
            self.ok(),
            t < self.machine().threads@.len(),
        ensures
            j == self.job(t),
    {
        self.jobs[t]
    }

    /// The address that the head pointer holds.
    pub fn head(&self) -> (a: usize)
        ensures
            a == self.front(),
    {
        self.head
    }

    /// The address that the tail pointer holds.
    pub fn tail(&self) -> (a: usize)
        ensures
            a == self.back(),
    {
        self.tail
    }

    /// An empty queue without threads: a list of one node without an
    /// item.
    pub fn new() -> (s: Steps<T>)
        ensures
            s.ok(),
            s.machine().accounted(),
            s@ == Seq::<T>::empty(),
            s.nodes().len() == 1,
            s.machine().threads@.len() == 0,
            s.machine().global == 0,
    {
        let mut ebr = Machine::new();
        let ghost fresh = ebr.heap;
        let a = ebr.heap.allocate(QUEUE_STEP_KIND);
        let mut nodes: Arena<Cell<T>> = Arena::new(QUEUE_STEP_KIND);
        nodes.put(a, Cell { data: None, next: 0 });
        let s = Steps {
            ebr,
            head: a,
            tail: a,
            nodes,
            jobs: Vec::new(),
            chain: Ghost(Seq::empty().push(a)),
            tail_at: Ghost(0),
        };
        proof {
            assert forall|b: usize| !#[trigger] s.ebr.heap.is_retired(b) by {
                if b != a {
                    assert(!fresh.allocated(b));
                    assert(fresh.same_cell(&s.ebr.heap, b));
                }
            }
            assert forall|b: usize| #[trigger] s.ebr.heap.is_live(b) implies s.chain@.contains(
                b,
            ) by {
                if b != a {
                    assert(!fresh.allocated(b));
                    assert(fresh.same_cell(&s.ebr.heap, b));
                }
                assert(s.chain@[0] == a);
            }
            assert(s@ =~= Seq::<T>::empty());
        }
        s
    }

    /// The queue is in order after a step of the pin and collect protocol
    /// that thread `t` took while it had no job on the queue.
    proof fn lemma_framed(&self, then: &Self, t: usize, bound: int)
        requires
            self.ok(),
            then.ebr.safe(),
            then.head == self.head,
            then.tail == self.tail,
            then.nodes == self.nodes,
            then.jobs == self.jobs,
            then.chain == self.chain,
            then.tail_at == self.tail_at,
            t < self.ebr.threads@.len(),
            self.ebr.others_same(&then.ebr, t),
            self.ebr.heap.reclaimed_from(&then.ebr.heap, Holder::Local(t), bound),
            then.ebr.threads@[t as int].holding == self.ebr.threads@[t as int].holding
                || then.ebr.threads@[t as int].holding@.len() == 0,
            self.jobs@[t as int] == Job::Idle,
        ensures
            then.ok(),
            then@ == self@,
    {
        let chain = self.chain@;
        assert forall|a: usize|
            then.ebr.heap.allocated(a) implies #[trigger] self.ebr.heap.same_cell(
            &then.ebr.heap,
            a,
        ) by {}
        assert forall|i: int| 0 <= i < chain.len() implies then.ebr.heap.is_live(
            #[trigger] chain[i],
        ) && then.ebr.heap.kind(chain[i]) == QUEUE_STEP_KIND && then.nodes.has(chain[i]) by {
            assert(self.ebr.heap.is_live(chain[i]));
            assert(self.ebr.heap.same_cell(&then.ebr.heap, chain[i]));
        }
        assert forall|a: usize| #[trigger] then.ebr.heap.is_retired(a) implies then.nodes.has(a)
            && then.ebr.heap.kind(a) == QUEUE_STEP_KIND && then.nodes.at(a).next != 0 by {
            assert(self.ebr.heap.same_cell(&then.ebr.heap, a));
            assert(self.ebr.heap.is_retired(a));
        }
        assert(then.list_ok());
        assert forall|a: usize|
            (#[trigger] self.published(a)) && then.ebr.heap.allocated(a) implies then.published(
            a,
        ) by {
            assert(self.ebr.heap.same_cell(&then.ebr.heap, a));
        }
        assert forall|a: usize| #[trigger] self.own(a) implies then.own(a) by {
            assert(self.ebr.heap.same_cell(&then.ebr.heap, a));
        }
        assert forall|a: usize|
            (#[trigger] self.behind_tail(a)) && then.ebr.heap.allocated(a) implies then.behind_tail(
            a,
        ) by {
            assert(self.ebr.heap.same_cell(&then.ebr.heap, a));
            if !self.ebr.heap.is_retired(a) {
                let i = choose|i: int|
                    0 <= i <= self.tail_at@ && i < self.chain@.len() && #[trigger] self.chain@[i]
                        == a;
                assert(then.chain@[i] == a);
            }
        }
        assert forall|a: usize|
            (#[trigger] self.head_or_gone(a)) && then.ebr.heap.allocated(a)
                implies then.head_or_gone(
            a,
        ) && (self.ahead(a) ==> then.ahead(a)) by {
            assert(self.ebr.heap.same_cell(&then.ebr.heap, a));
        }
        assert(self.carries(then, t));
        assert(then.job_ok(t as int)) by {
            assert(self.job_ok(t as int));
            assert(then.ebr.thread_ok(t as int));
            let th = then.ebr.threads@[t as int];
            assert forall|i: int| 0 <= i < th.holding@.len() implies then.published(
                #[trigger] th.holding@[i],
            ) by {
                assert(self.published(self.ebr.threads@[t as int].holding@[i]));
                assert(then.ebr.heap.allocated(th.holding@[i]));
            }
        }
        assert forall|a: usize| #[trigger] then.ebr.heap.is_live(a) implies self.ebr.heap.is_live(
            a,
        ) by {
            assert(self.ebr.heap.same_cell(&then.ebr.heap, a));
        }
        self.lemma_carried(then, t);
        assert(then@ =~= self@);
    }

    /// Enrols a thread and returns its number.
    pub fn enroll(&mut self) -> (t: usize)
        requires
            old(self).ok(),
            old(self).machine().threads@.len() < usize::MAX,
        ensures
            final(self).ok(),
            old(self).machine().accounted() ==> final(self).machine().accounted(),
            t == old(self).machine().threads@.len(),
            final(self).machine().threads@.len() == t + 1,
            final(self).machine().phase(t) == Phase::Idle,
            final(self).job(t) == Job::Idle,
            final(self)@ == old(self)@,
            final(self).nodes() == old(self).nodes(),
            forall|u: usize| u < t ==> final(self).job(u) == old(self).job(u),
    {
        let t = self.ebr.enroll();
        self.jobs.push(Job::Idle);
        proof {
            let chain = self.chain@;
            assert forall|a: usize| #[trigger] old(self).behind_tail(a) implies self.behind_tail(
                a,
            ) by {
                if !self.ebr.heap.is_retired(a) {
                    let i = choose|i: int|
                        0 <= i <= self.tail_at@ && i < chain.len() && #[trigger] chain[i] == a;
                    assert(self.chain@[i] == a);
                }
            }
            assert forall|u: int| 0 <= u < self.jobs@.len() implies #[trigger] self.job_ok(u) by {
                if u < t {
                    assert(old(self).job_ok(u));
                    assert(self.ebr.threads@[u] == old(self).ebr.threads@[u]);
                    assert(self.jobs@[u] == old(self).jobs@[u]);
                    let th = self.ebr.threads@[u];
                    assert forall|i: int| 0 <= i < th.holding@.len() implies self.published(
                        #[trigger] th.holding@[i],
                    ) by {
                        assert(old(self).published(old(self).ebr.threads@[u].holding@[i]));
                    }
                    match self.jobs@[u] {
                        Job::PushTail(a, tl) => {
                            assert(old(self).behind_tail(tl));
                        },
                        Job::PushNext(a, tl, n) => {
                            assert(old(self).behind_tail(tl));
                        },
                        _ => {},
                    }
                } else {
                    assert(self.ebr.thread_ok(u));
                }
            }
            assert forall|v: int, u: int|
                0 <= v < self.jobs@.len() && 0 <= u < self.jobs@.len() && v != u && unpublished(
                    #[trigger] self.jobs@[v],
                ) is Some implies unpublished(self.jobs@[v]) != unpublished(
                #[trigger] self.jobs@[u],
            ) by {
                assert(v < t);
                assert(self.jobs@[v] == old(self).jobs@[v]);
                if u < t {
                    assert(self.jobs@[u] == old(self).jobs@[u]);
                }
            }
            assert forall|a: usize| #[trigger] self.ebr.heap.is_live(a) implies chain.contains(a)
                || self.pushing(a) by {
                if !chain.contains(a) {
                    assert(old(self).pushing(a));
                    let u = choose|u: int|
                        0 <= u < old(self).jobs@.len() && unpublished(
                            #[trigger] old(self).jobs@[u],
                        ) == Some(a);
                    assert(self.jobs@[u] == old(self).jobs@[u]);
                }
            }
            assert(self@ =~= old(self)@);
        }
        t
    }

    /// First step of a pin of thread `t`, which is idle.
    pub fn begin_pin(&mut self, t: usize)
        requires
            old(self).ok(),
            t < old(self).machine().threads@.len(),
            old(self).machine().phase(t) == Phase::Idle,
        ensures
            final(self).ok(),
            old(self).machine().accounted() ==> final(self).machine().accounted(),
            final(self).machine().phase(t) == Phase::Entering,
            final(self)@ == old(self)@,
            final(self).nodes() == old(self).nodes(),
            forall|u: usize| final(self).job(u) == old(self).job(u),
            old(self).machine().others_same(&final(self).machine(), t),
            final(self).machine().global == old(self).machine().global,
    {
        proof {
            assert(old(self).job_ok(t as int));
        }
        self.ebr.begin_pin(t);
        proof {
            old(self).lemma_framed(self, t, 0);
        }
    }

    /// Second step of a pin: thread `t` reads the global epoch.
    pub fn read_epoch(&mut self, t: usize)
        requires
            old(self).ok(),
            t < old(self).machine().threads@.len(),
            old(self).machine().phase(t) == Phase::Entering,
        ensures
            final(self).ok(),
            old(self).machine().accounted() ==> final(self).machine().accounted(),
            final(self).machine().phase(t) == Phase::Adopting(old(self).machine().global),
            final(self)@ == old(self)@,
            final(self).nodes() == old(self).nodes(),
            forall|u: usize| final(self).job(u) == old(self).job(u),
            old(self).machine().others_same(&final(self).machine(), t),
            final(self).machine().global == old(self).machine().global,
    {
        proof {
            assert(old(self).job_ok(t as int));
        }
        self.ebr.read_epoch(t);
        proof {
            old(self).lemma_framed(self, t, 0);
        }
    }

    /// Last step of a pin: thread `t` adopts the epoch that it read, and
    /// frees what it may free if that is a new one. Says whether it freed.
    pub fn adopt(&mut self, t: usize) -> (collected: bool)
        requires
            old(self).ok(),
            t < old(self).machine().threads@.len(),
            old(self).machine().phase(t) matches Phase::Adopting(_),
        ensures
            final(self).ok(),
            collected ==> crate::mem::epoch::garbage::freed(
                &old(self).machine().heap,
                &final(self).machine().heap,
                crate::mem::epoch::protocol::stale_of(
                    &old(self).machine().threads@[t as int].garbage,
                ),
            ),
            old(self).machine().accounted() ==> final(self).machine().accounted(),
            final(self).machine().phase(t) == Phase::Pinned,
            old(self).machine().phase(t) matches Phase::Adopting(seen)
                && final(self).machine().threads@[t as int].epoch == seen && collected == (seen
                != old(self).machine().threads@[t as int].epoch),
            final(self)@ == old(self)@,
            final(self).nodes() == old(self).nodes(),
            forall|u: usize| final(self).job(u) == old(self).job(u),
            old(self).machine().others_same(&final(self).machine(), t),
            final(self).machine().global == old(self).machine().global,
    {
        proof {
            assert(old(self).job_ok(t as int));
        }
        let collected = self.ebr.adopt(t);
        proof {
            old(self).lemma_framed(self, t, self.ebr.global - 2);
        }
        collected
    }

    /// Thread `t`, which is pinned and has no job on the stack, unpins.
    pub fn unpin(&mut self, t: usize)
        requires
            old(self).ok(),
            t < old(self).machine().threads@.len(),
            old(self).machine().phase(t) == Phase::Pinned,
            old(self).job(t) == Job::Idle,
        ensures
            final(self).ok(),
            old(self).machine().accounted() ==> final(self).machine().accounted(),
            final(self).machine().phase(t) == Phase::Idle,
            final(self)@ == old(self)@,
            final(self).nodes() == old(self).nodes(),
            forall|u: usize| final(self).job(u) == old(self).job(u),
            old(self).machine().others_same(&final(self).machine(), t),
            final(self).machine().global == old(self).machine().global,
    {
        self.ebr.unpin(t);
        proof {
            old(self).lemma_framed(self, t, 0);
        }
    }

    /// First step of a collection by thread `t`, which is pinned, has no
    /// job on the stack and holds no pointer.
    pub fn begin_collect(&mut self, t: usize)
        requires
            old(self).ok(),
            t < old(self).machine().threads@.len(),
            old(self).machine().phase(t) == Phase::Pinned,
            old(self).machine().threads@[t as int].holding@.len() == 0,
            old(self).job(t) == Job::Idle,
        ensures
            final(self).ok(),
            old(self).machine().accounted() ==> final(self).machine().accounted(),
            final(self).machine().phase(t) == Phase::Scanning(old(self).machine().global, 0),
            final(self)@ == old(self)@,
            final(self).nodes() == old(self).nodes(),
            forall|u: usize| final(self).job(u) == old(self).job(u),
            old(self).machine().others_same(&final(self).machine(), t),
            final(self).machine().global == old(self).machine().global,
    {
        self.ebr.begin_collect(t);
        proof {
            old(self).lemma_framed(self, t, 0);
        }
    }

    /// One step of the walk of a collection: thread `t` looks at the next
    /// participant. Says whether the collection goes on.
    pub fn check_next(&mut self, t: usize) -> (goes_on: bool)
        requires
            old(self).ok(),
            t < old(self).machine().threads@.len(),
            old(self).machine().phase(t) matches Phase::Scanning(_, next)
                && next < old(self).machine().threads@.len(),
        ensures
            final(self).ok(),
            old(self).machine().accounted() ==> final(self).machine().accounted(),
            old(self).machine().phase(t) matches Phase::Scanning(e, next) && goes_on
                == !(old(self).machine().threads@[next as int].in_critical > 0
                && old(self).machine().threads@[next as int].epoch != e)
                && final(self).machine().phase(t) == (
            if goes_on {
                Phase::Scanning(e, (next + 1) as usize)
            } else {
                Phase::Pinned
            }),
            final(self)@ == old(self)@,
            final(self).nodes() == old(self).nodes(),
            forall|u: usize| final(self).job(u) == old(self).job(u),
            old(self).machine().others_same(&final(self).machine(), t),
            final(self).machine().global == old(self).machine().global,
    {
        proof {
            assert(old(self).job_ok(t as int));
        }
        let goes_on = self.ebr.check_next(t);
        proof {
            old(self).lemma_framed(self, t, 0);
        }
        goes_on
    }

    /// Last step of a collection: thread `t` tries to move the global
    /// epoch on, and frees what it may free if it did. Says whether it
    /// did.
    pub fn advance(&mut self, t: usize) -> (advanced: bool)
        requires
            old(self).ok(),
            t < old(self).machine().threads@.len(),
            old(self).machine().phase(t) matches Phase::Scanning(_, next) && next
                == old(self).machine().threads@.len(),
        ensures
            final(self).ok(),
            advanced ==> crate::mem::epoch::garbage::freed(
                &old(self).machine().heap,
                &final(self).machine().heap,
                crate::mem::epoch::protocol::stale_of(
                    &old(self).machine().threads@[t as int].garbage,
                ),
            ),
            old(self).machine().accounted() ==> final(self).machine().accounted(),
            final(self).machine().phase(t) == Phase::Pinned,
            old(self).machine().phase(t) matches Phase::Scanning(e, _) && advanced
                == (old(self).machine().global == e && e < usize::MAX - 1),
            final(self).machine().global == (if advanced {
                old(self).machine().global + 1
            } else {
                old(self).machine().global as int
            }),
            final(self)@ == old(self)@,
            final(self).nodes() == old(self).nodes(),
            forall|u: usize| final(self).job(u) == old(self).job(u),
            old(self).machine().others_same(&final(self).machine(), t),
    {
        proof {
            assert(old(self).job_ok(t as int));
        }
        let advanced = self.ebr.advance(t);
        proof {
            old(self).lemma_framed(self, t, self.ebr.global - 2);
        }
        advanced
    }


    /// The link out of the node at `a`, which is allocated.
    fn link_of(&self, a: usize) -> (n: usize)
        requires
            self.nodes.readable(&self.ebr.heap, a),
        ensures
            n == self.nodes.at(a).next,
    {
        proof {
            self.ebr.heap.lemma_null_is_free();
        }
        match Shared::from_raw(a) {
            Some(p) => self.nodes.get(p, &self.ebr.heap).next,
            None => 0,
        }
    }

    /// Sets the link out of the node at `a`.
    fn set_link(&mut self, a: usize, next: usize)
        requires
            old(self).nodes.has(a),
        ensures
            final(self).nodes.has(a),
            final(self).nodes.at(a).next == next,
            final(self).nodes.at(a).data == old(self).nodes.at(a).data,
            forall|b: usize| b != a ==> old(self).nodes.same_at(&final(self).nodes, b),
            final(self).nodes.kind() == old(self).nodes.kind(),
            final(self).ebr == old(self).ebr,
            final(self).head == old(self).head,
            final(self).tail == old(self).tail,
            final(self).jobs == old(self).jobs,
            final(self).chain == old(self).chain,
            final(self).tail_at == old(self).tail_at,
    {
        let mut cell = self.nodes.take(a);
        let ghost taken = self.nodes;
        cell.next = next;
        self.nodes.put(a, cell);
        proof {
            assert forall|b: usize| b != a implies old(self).nodes.same_at(&self.nodes, b) by {
                assert(old(self).nodes.same_at(&taken, b));
                assert(taken.same_at(&self.nodes, b));
            }
        }
    }

    /// Takes the item out of the node at `a`.
    fn take_item(&mut self, a: usize) -> (t: Option<T>)
        requires
            old(self).nodes.has(a),
        ensures
            t == old(self).nodes.at(a).data,
            final(self).nodes.has(a),
            final(self).nodes.at(a).next == old(self).nodes.at(a).next,
            final(self).nodes.at(a).data is None,
            forall|b: usize| b != a ==> old(self).nodes.same_at(&final(self).nodes, b),
            final(self).nodes.kind() == old(self).nodes.kind(),
            final(self).ebr == old(self).ebr,
            final(self).head == old(self).head,
            final(self).tail == old(self).tail,
            final(self).jobs == old(self).jobs,
            final(self).chain == old(self).chain,
            final(self).tail_at == old(self).tail_at,
    {
        let mut cell = self.nodes.take(a);
        let ghost taken = self.nodes;
        let t = cell.data.take();
        self.nodes.put(a, cell);
        proof {
            assert forall|b: usize| b != a implies old(self).nodes.same_at(&self.nodes, b) by {
                assert(old(self).nodes.same_at(&taken, b));
                assert(taken.same_at(&self.nodes, b));
            }
        }
        t
    }

    /// What thread `t` held before a step is linked after it, if the step
    /// kept what was linked.
    proof fn lemma_holding_ok(&self, then: &Self, t: usize)
        requires
            self.ok(),
            then.ebr.safe(),
            t < self.jobs@.len(),
            then.ebr.threads@.len() == self.ebr.threads@.len(),
            then.ebr.threads@[t as int].holding == self.ebr.threads@[t as int].holding,
            forall|a: usize|
                (#[trigger] self.published(a)) && then.ebr.heap.allocated(a) ==> then.published(a),
        ensures
            forall|i: int|
                0 <= i < then.ebr.threads@[t as int].holding@.len() ==> then.published(
                    #[trigger] then.ebr.threads@[t as int].holding@[i],
                ),
    {
        assert(self.job_ok(t as int));
        assert(then.ebr.thread_ok(t as int));
        let th = then.ebr.threads@[t as int];
        assert forall|i: int| 0 <= i < th.holding@.len() implies then.published(
            #[trigger] th.holding@[i],
        ) by {
            assert(self.published(self.ebr.threads@[t as int].holding@[i]));
            assert(then.ebr.heap.allocated(th.holding@[i]));
        }
    }

    /// First step of a push by thread `t`, which is pinned and has no job:
    /// a node is allocated and filled with `value`.
    pub fn start_push(&mut self, t: usize, value: T)
        requires
            old(self).ok(),
            t < old(self).machine().threads@.len(),
            old(self).machine().phase(t) == Phase::Pinned,
            old(self).job(t) == Job::Idle,
        ensures
            final(self).ok(),
            old(self).machine().accounted() ==> final(self).machine().accounted(),
            final(self).job(t) matches Job::Push(a) && final(self).item(a) == Some(value)
                && !old(self).machine().heap.allocated(a),
            final(self)@ == old(self)@,
            final(self).nodes() == old(self).nodes(),
            final(self).front() == old(self).front(),
            final(self).back() == old(self).back(),
            final(self).back_at() == old(self).back_at(),
            forall|u: usize|
                u != t && u < old(self).machine().threads@.len() ==> final(self).job(u)
                    == old(self).job(u),
            final(self).machine().threads == old(self).machine().threads,
            final(self).machine().global == old(self).machine().global,
    {
        let a = self.ebr.allocate(t, QUEUE_STEP_KIND);
        self.nodes.put(a, Cell { data: Some(value), next: 0 });
        self.jobs[t] = Job::Push(a);
        proof {
            let chain = self.chain@;
            // whatever was referred to before is allocated, so it is not
            // the new node
            assert forall|b: usize| old(self).ebr.heap.allocated(b) implies b != a
                && old(self).nodes.same_at(&self.nodes, b)
                && #[trigger] old(self).ebr.heap.same_cell(
                &self.ebr.heap,
                b,
            ) by {}
            assert forall|i: int| 0 <= i < chain.len() implies (#[trigger] chain[i]) != a
                && old(self).nodes.same_at(&self.nodes, chain[i]) && self.ebr.heap.is_live(
                chain[i],
            ) && self.ebr.heap.kind(chain[i]) == QUEUE_STEP_KIND by {
                assert(old(self).ebr.heap.is_live(chain[i]));
                assert(old(self).ebr.heap.same_cell(&self.ebr.heap, chain[i]));
            }
            assert forall|i: int| 0 <= i < chain.len() implies (#[trigger] self.nodes.at(
                chain[i],
            )).next == successor(chain, i) && (i >= 1 ==> self.nodes.at(chain[i]).data is Some) by {
                assert(chain[i] != a);
                assert(old(self).nodes.has(chain[i]));
                assert(old(self).nodes.at(chain[i]).next == successor(chain, i));
            }
            assert(!chain.contains(a)) by {
                if chain.contains(a) {
                    let i = choose|i: int| 0 <= i < chain.len() && chain[i] == a;
                    assert(chain[i] != a);
                }
            }
            assert forall|b: usize| #[trigger] self.ebr.heap.is_retired(b) implies self.nodes.has(
                b,
            ) && self.ebr.heap.kind(b) == QUEUE_STEP_KIND && self.nodes.at(b).next != 0 by {
                assert(b != a);
                assert(old(self).ebr.heap.same_cell(&self.ebr.heap, b));
                assert(old(self).ebr.heap.is_retired(b));
                assert(old(self).nodes.same_at(&self.nodes, b));
            }
            assert(self.list_ok());
            assert forall|b: usize|
                (#[trigger] old(self).published(b)) && self.ebr.heap.allocated(
                    b,
                ) implies self.published(b) && (old(self).nodes.at(b).next != 0
                ==> self.nodes.at(b).next == old(self).nodes.at(b).next) by {
                if old(self).chain@.contains(b) {
                    let i = choose|i: int| 0 <= i < chain.len() && chain[i] == b;
                    assert(old(self).ebr.heap.is_live(chain[i]));
                }
                assert(old(self).ebr.heap.same_cell(&self.ebr.heap, b));
            }
            assert forall|b: usize| #[trigger] old(self).own(b) implies self.own(b) by {
                assert(old(self).ebr.heap.same_cell(&self.ebr.heap, b));
            }
            assert forall|b: usize|
                (#[trigger] old(self).behind_tail(b)) && self.ebr.heap.allocated(
                    b,
                ) implies self.behind_tail(b) by {
                if old(self).ebr.heap.is_retired(b) {
                    assert(old(self).ebr.heap.same_cell(&self.ebr.heap, b));
                } else {
                    let i = choose|i: int|
                        0 <= i <= self.tail_at@ && i < chain.len() && #[trigger] chain[i] == b;
                    assert(self.chain@[i] == b);
                }
            }
            assert forall|b: usize|
                (#[trigger] old(self).head_or_gone(b)) && self.ebr.heap.allocated(
                    b,
                ) implies self.head_or_gone(b) && (old(self).ahead(b) ==> self.ahead(b)) by {
                if old(self).ebr.heap.is_retired(b) {
                    assert(old(self).ebr.heap.same_cell(&self.ebr.heap, b));
                }
            }
            assert(old(self).carries(self, t));
            old(self).lemma_holding_ok(self, t);
            assert forall|b: usize| #[trigger] self.ebr.heap.is_live(b)
                implies old(self).ebr.heap.is_live(b) || unpublished(self.jobs@[t as int])
                == Some(b) by {
                if b != a {
                    assert(old(self).ebr.heap.same_cell(&self.ebr.heap, b));
                }
            }
            old(self).lemma_carried(self, t);
            assert forall|i: int| 0 <= i < self@.len() implies self@[i] == old(self)@[i] by {
                assert(chain[i + 1] != a);
                assert(old(self).nodes.has(chain[i + 1]));
            }
            assert(self@ =~= old(self)@);
        }
    }

    /// Second step of a push: thread `t` reads the tail, and holds a
    /// pointer to the node that it found from here on.
    pub fn push_read_tail(&mut self, t: usize)
        requires
            old(self).ok(),
            t < old(self).machine().threads@.len(),
            old(self).job(t) matches Job::Push(_),
        ensures
            final(self).ok(),
            old(self).machine().accounted() ==> final(self).machine().accounted(),
            old(self).job(t) matches Job::Push(a) && final(self).job(t) == Job::PushTail(
                a,
                old(self).back(),
            ) && final(self).item(a) == old(self).item(a),
            final(self).machine().holds(t, old(self).back()),
            final(self)@ == old(self)@,
            final(self).nodes() == old(self).nodes(),
            final(self).front() == old(self).front(),
            final(self).back() == old(self).back(),
            final(self).back_at() == old(self).back_at(),
            forall|u: usize|
                u != t && u < old(self).machine().threads@.len() ==> final(self).job(u)
                    == old(self).job(u),
            old(self).machine().others_same(&final(self).machine(), t),
            final(self).machine().heap == old(self).machine().heap,
            final(self).machine().global == old(self).machine().global,
            final(self).machine().phase(t) == Phase::Pinned,
    {
        proof {
            assert(self.job_ok(t as int));
            assert(self.ebr.heap.is_live(self.chain@[self.tail_at@]));
        }
        let a: usize = match self.jobs[t] {
            Job::Push(a) => a,
            _ => 0,
        };
        let tl: usize = self.tail;
        self.ebr.hold(t, tl);
        self.jobs[t] = Job::PushTail(a, tl);
        proof {
            old(self).lemma_quiet(self, t);
            let th = self.ebr.threads@[t as int];
            let before = old(self).ebr.threads@[t as int].holding@;
            assert(self.chain@.contains(self.chain@[self.tail_at@]));
            assert forall|i: int| 0 <= i < th.holding@.len() implies self.published(
                #[trigger] th.holding@[i],
            ) by {
                if i < before.len() {
                    assert(old(self).published(before[i]));
                }
            }
            assert(th.holding@[before.len() as int] == tl);
            assert(self.chain@[self.tail_at@] == tl);
            assert(self.behind_tail(tl));
            old(self).lemma_carried(self, t);
        }
    }

    /// Third step of a push: thread `t` reads the link out of the node
    /// that it read the tail to be. The node may have left the list
    /// since, but it is still allocated, since the thread holds it.
    pub fn push_read_next(&mut self, t: usize)
        requires
            old(self).ok(),
            t < old(self).machine().threads@.len(),
            old(self).job(t) matches Job::PushTail(_, _),
        ensures
            final(self).ok(),
            old(self).job(t) matches Job::PushTail(a, tl) && final(self).job(t) == Job::PushNext(
                a,
                tl,
                old(self).link(tl),
            ) && final(self).item(a) == old(self).item(a) && old(self).machine().heap.allocated(
                tl,
            ),
            final(self)@ == old(self)@,
            final(self).nodes() == old(self).nodes(),
            final(self).front() == old(self).front(),
            final(self).back() == old(self).back(),
            final(self).back_at() == old(self).back_at(),
            forall|u: usize|
                u != t && u < old(self).machine().threads@.len() ==> final(self).job(u)
                    == old(self).job(u),
            final(self).machine() == old(self).machine(),
    {
        let (a, tl) = match self.jobs[t] {
            Job::PushTail(a, tl) => (a, tl),
            _ => (0, 0),
        };
        proof {
            assert(self.job_ok(t as int));
            let held = self.ebr.threads@[t as int].holding@;
            let i = choose|i: int| 0 <= i < held.len() && held[i] == tl;
            assert(self.published(held[i]));
            self.ebr.lemma_held_is_allocated(t, tl);
        }
        let n: usize = self.link_of(tl);
        self.jobs[t] = Job::PushNext(a, tl, n);
        proof {
            old(self).lemma_quiet(self, t);
            old(self).lemma_holding_ok(self, t);
            assert(old(self).behind_tail(tl));
            assert(old(self).own(a));
            old(self).lemma_carried(self, t);
        }
    }

    /// A step of thread `t` that moved the tail on by one node, and
    /// changed nothing else but the thread's job, carries everything over.
    proof fn lemma_swung(&self, then: &Self, t: usize)
        requires
            self.ok(),
            t < self.jobs@.len(),
            then.jobs@.len() == self.jobs@.len(),
            forall|u: int|
                0 <= u < self.jobs@.len() && u != t ==> (#[trigger] then.jobs@[u]) == self.jobs@[u],
            then.ebr == self.ebr,
            then.nodes == self.nodes,
            then.head == self.head,
            then.chain == self.chain,
            self.tail_at@ + 1 < self.chain@.len(),
            then.tail_at@ == self.tail_at@ + 1,
            then.tail == self.chain@[self.tail_at@ + 1],
        ensures
            self.carries(then, t),
            then.list_ok(),
            then@ == self@,
    {
        assert forall|a: usize| #[trigger] self.behind_tail(a) implies then.behind_tail(a) by {
            if !self.ebr.heap.is_retired(a) {
                let i = choose|i: int|
                    0 <= i <= self.tail_at@ && i < self.chain@.len() && #[trigger] self.chain@[i]
                        == a;
                assert(then.chain@[i] == a);
            }
        }
    }

    /// The node that a thread holds and that has no link is the last node
    /// of the list; one that has a link and is where the tail is has the
    /// last node behind it.
    proof fn lemma_held_place(&self, t: usize, a: usize)
        requires
            self.ok(),
            t < self.jobs@.len(),
            self.ebr.threads@[t as int].holding@.contains(a),
        ensures
            self.published(a),
            self.nodes.readable(&self.ebr.heap, a),
            a != 0,
            self.nodes.at(a).next == 0 ==> a == self.chain@.last(),
            self.nodes.at(a).next == 0 && self.behind_tail(a) ==> self.tail_at@
                == self.chain@.len() - 1,
            self.nodes.at(a).next != 0 && self.tail == a ==> self.tail_at@ == self.chain@.len() - 2
                && self.chain@.last() == self.nodes.at(a).next,
            self.head == a ==> a == self.chain@[0],
    {
        assert(self.job_ok(t as int));
        let held = self.ebr.threads@[t as int].holding@;
        let k = choose|k: int| 0 <= k < held.len() && held[k] == a;
        assert(self.published(held[k]));
        self.ebr.lemma_held_is_allocated(t, a);
        self.ebr.heap.lemma_null_is_free();
        let chain = self.chain@;
        let last = chain.len() - 1;
        assert(self.ebr.heap.is_live(chain[last]));
        if self.nodes.at(a).next == 0 {
            // a retired node has a link, so this one is on the list
            assert(chain.contains(a));
            let i = choose|i: int| 0 <= i < chain.len() && chain[i] == a;
            assert(self.nodes.at(chain[i]).next == successor(chain, i));
            if i < last {
                assert(self.ebr.heap.is_live(chain[i + 1]));
            }
            assert(i == last);
            if self.behind_tail(a) {
                let j = choose|j: int|
                    0 <= j <= self.tail_at@ && j < chain.len() && #[trigger] chain[j] == a;
                assert(j == last);
            }
        }
        if self.nodes.at(a).next != 0 && self.tail == a {
            let i = self.tail_at@;
            assert(self.nodes.at(chain[i]).next == successor(chain, i));
        }
    }

    /// Fourth step of a push. If the node that thread `t` read the tail to
    /// be had no link when it looked, the thread tries to link its node
    /// behind that node. That succeeds if the node still has no link, and
    /// then the push has taken effect: the item is the last of the queue.
    /// If the node had a link, the tail was behind: the thread helps it on
    /// to the node that the link points to, if it is still where it was.
    /// Unless the node was linked, the push starts over with reading the
    /// tail. Says whether the node was linked.
    pub fn push_link(&mut self, t: usize) -> (linked: bool)
        requires
            old(self).ok(),
            t < old(self).machine().threads@.len(),
            old(self).job(t) matches Job::PushNext(_, _, _),
        ensures
            final(self).ok(),
            old(self).job(t) matches Job::PushNext(a, tl, n) && old(self).item(a) matches Some(
                value,
            ) && linked == (n == 0 && old(self).link(tl) == 0) && final(self).job(t) == (if linked {
                Job::PushLinked(a, tl)
            } else {
                Job::Push(a)
            }) && final(self)@ == (if linked {
                fifo_after(old(self)@, Op::Push(value))
            } else {
                old(self)@
            }) && final(self).nodes() == (if linked {
                old(self).nodes().push(a)
            } else {
                old(self).nodes()
            }) && final(self).back() == (if n != 0 && old(self).back() == tl {
                n
            } else {
                old(self).back()
            }) && final(self).item(a) == old(self).item(a),
            final(self).front() == old(self).front(),
            forall|u: usize|
                u != t && u < old(self).machine().threads@.len() ==> final(self).job(u)
                    == old(self).job(u),
            final(self).machine() == old(self).machine(),
    {
        let (a, tl, n) = match self.jobs[t] {
            Job::PushNext(a, tl, n) => (a, tl, n),
            _ => (0, 0, 0),
        };
        proof {
            assert(self.job_ok(t as int));
            self.lemma_held_place(t, tl);
        }
        if n == 0 {
            let now: usize = self.link_of(tl);
            if now == 0 {
                self.set_link(tl, a);
                self.jobs[t] = Job::PushLinked(a, tl);
                proof {
                    let before = old(self).chain@;
                    self.chain = Ghost(before.push(a));
                    let chain = self.chain@;
                    let last = before.len() - 1;
                    assert(before[last] == tl);
                    assert(old(self).own(a));
                    assert(a != tl) by {
                        assert(before.contains(before[last]));
                    }
                    assert forall|i: int| 0 <= i < before.len() implies (#[trigger] chain[i])
                        == before[i] && chain[i] != a by {
                        assert(before.contains(before[i]));
                    }
                    assert(chain[last + 1] == a);
                    assert(old(self).nodes.same_at(&self.nodes, a));
                    assert forall|i: int, j: int| 0 <= i < j < chain.len() implies chain[i]
                        != chain[j] by {
                        assert(chain[i] == before[i]);
                        if j < before.len() {
                            assert(chain[j] == before[j]);
                        }
                    }
                    assert forall|i: int| 0 <= i < chain.len() implies self.ebr.heap.is_live(
                        #[trigger] chain[i],
                    ) && self.ebr.heap.kind(chain[i]) == QUEUE_STEP_KIND && self.nodes.has(
                        chain[i],
                    ) by {
                        if i < before.len() {
                            assert(chain[i] == before[i]);
                            assert(old(self).nodes.has(before[i]));
                            if i < last {
                                assert(old(self).nodes.same_at(&self.nodes, before[i]));
                            }
                        }
                    }
                    assert forall|i: int| 0 <= i < chain.len() implies (#[trigger] self.nodes.at(
                        chain[i],
                    )).next == successor(chain, i) && (i >= 1 ==> self.nodes.at(
                        chain[i],
                    ).data is Some) by {
                        if i < last {
                            assert(chain[i] == before[i]);
                            assert(chain[i + 1] == before[i + 1]);
                            assert(old(self).nodes.has(before[i]));
                            assert(old(self).nodes.same_at(&self.nodes, before[i]));
                            assert(old(self).nodes.at(before[i]).next == successor(before, i));
                        } else if i == last {
                            assert(old(self).nodes.at(before[i]).next == successor(before, i));
                        } else {
                            assert(old(self).nodes.same_at(&self.nodes, a));
                        }
                    }
                    assert forall|b: usize| #[trigger]
                        self.ebr.heap.is_retired(b) implies self.nodes.has(b)
                        && self.ebr.heap.kind(b) == QUEUE_STEP_KIND && self.nodes.at(b).next
                        != 0 by {
                        assert(old(self).ebr.heap.is_retired(b));
                        assert(b != tl);
                        assert(old(self).nodes.same_at(&self.nodes, b));
                    }
                    assert(self.list_ok());
                    assert forall|b: usize|
                        (#[trigger] old(self).published(b)) && self.ebr.heap.allocated(
                            b,
                        ) implies self.published(b) && (old(self).nodes.at(b).next != 0
                        ==> self.nodes.at(b).next == old(self).nodes.at(b).next) by {
                        if before.contains(b) {
                            let i = choose|i: int| 0 <= i < before.len() && before[i] == b;
                            assert(chain[i] == b);
                        }
                        if b != tl {
                            assert(old(self).nodes.same_at(&self.nodes, b));
                        }
                    }
                    assert forall|b: usize|
                        (#[trigger] old(self).own(b)) && unpublished(old(self).jobs@[t as int])
                            != Some(b) implies self.own(b) by {
                        assert(b != tl);
                        assert(old(self).nodes.same_at(&self.nodes, b));
                        if chain.contains(b) {
                            let i = choose|i: int| 0 <= i < chain.len() && chain[i] == b;
                            if i < before.len() {
                                assert(before.contains(before[i]));
                            }
                        }
                    }
                    assert forall|b: usize|
                        (#[trigger] old(self).behind_tail(b)) && self.ebr.heap.allocated(
                            b,
                        ) implies self.behind_tail(b) by {
                        if !old(self).ebr.heap.is_retired(b) {
                            let i = choose|i: int|
                                0 <= i <= self.tail_at@ && i < before.len() && #[trigger] before[i]
                                    == b;
                            assert(chain[i] == b);
                        }
                    }
                    assert forall|b: usize|
                        (#[trigger] old(self).head_or_gone(b)) && self.ebr.heap.allocated(
                            b,
                        ) implies self.head_or_gone(b) && (old(self).ahead(b) ==> self.ahead(
                        b,
                    )) by {
                        assert(chain[0] == before[0]);
                    }
                    assert(old(self).carries(self, t));
                    old(self).lemma_holding_ok(self, t);
                    assert(self.job_ok(t as int)) by {
                        old(self).ebr.heap.lemma_null_is_free();
                        assert(old(self).ebr.heap.is_live(a));
                        assert(self.ebr.threads@[t as int].holding@.contains(tl));
                    }
                    assert forall|b: usize|
                        before.contains(b) && #[trigger] self.ebr.heap.is_live(
                            b,
                        ) implies chain.contains(b) by {
                        let i = choose|i: int| 0 <= i < before.len() && before[i] == b;
                        assert(chain[i] == b);
                    }
                    assert(chain.contains(a));
                    old(self).lemma_carried(self, t);
                    assert forall|i: int| 0 <= i < old(self)@.len() implies self@[i]
                        == old(self)@[i] by {
                        assert(chain[i + 1] == before[i + 1]);
                        assert(old(self).nodes.has(before[i + 1]));
                        if i + 1 < last {
                            assert(old(self).nodes.same_at(&self.nodes, before[i + 1]));
                        }
                    }
                    assert(self@ =~= old(self)@.push(old(self).nodes.at(a).data->0));
                    assert(self.nodes() =~= old(self).nodes().push(a));
                }
                return true;
            }
        } else if self.tail == tl {
            self.tail = n;
            proof {
                self.tail_at = Ghost(old(self).tail_at@ + 1);
            }
        }
        self.jobs[t] = Job::Push(a);
        proof {
            if n != 0 && old(self).tail == tl {
                old(self).lemma_swung(self, t);
            } else {
                old(self).lemma_quiet(self, t);
            }
            old(self).lemma_holding_ok(self, t);
            assert(old(self).own(a));
            old(self).lemma_carried(self, t);
        }
        false
    }

    /// Last step of a push: thread `t` swings the tail to its node, if the
    /// tail is still the node behind which it linked its node. If it is
    /// not, another thread has helped the tail on.
    pub fn push_swing(&mut self, t: usize) -> (swung: bool)
        requires
            old(self).ok(),
            t < old(self).machine().threads@.len(),
            old(self).job(t) matches Job::PushLinked(_, _),
        ensures
            final(self).ok(),
            old(self).job(t) matches Job::PushLinked(a, tl) && swung == (old(self).back() == tl)
                && final(self).back() == (if swung {
                a
            } else {
                old(self).back()
            }),
            final(self).job(t) == Job::Idle,
            final(self)@ == old(self)@,
            final(self).nodes() == old(self).nodes(),
            final(self).front() == old(self).front(),
            forall|u: usize|
                u != t && u < old(self).machine().threads@.len() ==> final(self).job(u)
                    == old(self).job(u),
            final(self).machine() == old(self).machine(),
    {
        let (a, tl) = match self.jobs[t] {
            Job::PushLinked(a, tl) => (a, tl),
            _ => (0, 0),
        };
        proof {
            assert(self.job_ok(t as int));
            self.lemma_held_place(t, tl);
        }
        let swung: bool = self.tail == tl;
        if swung {
            self.tail = a;
            proof {
                self.tail_at = Ghost(old(self).tail_at@ + 1);
            }
        }
        self.jobs[t] = Job::Idle;
        proof {
            if swung {
                old(self).lemma_swung(self, t);
            } else {
                old(self).lemma_quiet(self, t);
            }
            old(self).lemma_holding_ok(self, t);
            old(self).lemma_carried(self, t);
        }
        swung
    }

    /// First step of a pop by thread `t`, which is pinned and has no job.
    pub fn start_pop(&mut self, t: usize)
        requires
            old(self).ok(),
            t < old(self).machine().threads@.len(),
            old(self).machine().phase(t) == Phase::Pinned,
            old(self).job(t) == Job::Idle,
        ensures
            final(self).ok(),
            final(self).job(t) == Job::Pop,
            final(self)@ == old(self)@,
            final(self).nodes() == old(self).nodes(),
            final(self).front() == old(self).front(),
            final(self).back() == old(self).back(),
            final(self).back_at() == old(self).back_at(),
            forall|u: usize|
                u != t && u < old(self).machine().threads@.len() ==> final(self).job(u)
                    == old(self).job(u),
            final(self).machine() == old(self).machine(),
    {
        self.jobs[t] = Job::Pop;
        proof {
            old(self).lemma_quiet(self, t);
            old(self).lemma_holding_ok(self, t);
            old(self).lemma_carried(self, t);
        }
    }

    /// Second step of a pop: thread `t` reads the head, and holds a
    /// pointer to the node that it found from here on.
    pub fn pop_read_head(&mut self, t: usize)
        requires
            old(self).ok(),
            t < old(self).machine().threads@.len(),
            old(self).job(t) == Job::Pop,
        ensures
            final(self).ok(),
            old(self).machine().accounted() ==> final(self).machine().accounted(),
            final(self).job(t) == Job::PopHead(old(self).front()),
            final(self).machine().holds(t, old(self).front()),
            final(self)@ == old(self)@,
            final(self).nodes() == old(self).nodes(),
            final(self).front() == old(self).front(),
            final(self).back() == old(self).back(),
            final(self).back_at() == old(self).back_at(),
            forall|u: usize|
                u != t && u < old(self).machine().threads@.len() ==> final(self).job(u)
                    == old(self).job(u),
            old(self).machine().others_same(&final(self).machine(), t),
            final(self).machine().heap == old(self).machine().heap,
            final(self).machine().global == old(self).machine().global,
            final(self).machine().phase(t) == Phase::Pinned,
    {
        proof {
            assert(self.job_ok(t as int));
            assert(self.ebr.heap.is_live(self.chain@[0]));
        }
        let h: usize = self.head;
        self.ebr.hold(t, h);
        self.jobs[t] = Job::PopHead(h);
        proof {
            old(self).lemma_quiet(self, t);
            let th = self.ebr.threads@[t as int];
            let before = old(self).ebr.threads@[t as int].holding@;
            assert(self.chain@.contains(self.chain@[0]));
            assert forall|i: int| 0 <= i < th.holding@.len() implies self.published(
                #[trigger] th.holding@[i],
            ) by {
                if i < before.len() {
                    assert(old(self).published(before[i]));
                }
            }
            assert(th.holding@[before.len() as int] == h);
            old(self).lemma_carried(self, t);
        }
    }

    /// Third step of a pop: thread `t` reads the tail.
    pub fn pop_read_tail(&mut self, t: usize)
        requires
            old(self).ok(),
            t < old(self).machine().threads@.len(),
            old(self).job(t) matches Job::PopHead(_),
        ensures
            final(self).ok(),
            old(self).job(t) matches Job::PopHead(h) && final(self).job(t) == Job::PopTail(
                h,
                old(self).back(),
            ),
            final(self)@ == old(self)@,
            final(self).nodes() == old(self).nodes(),
            final(self).front() == old(self).front(),
            final(self).back() == old(self).back(),
            final(self).back_at() == old(self).back_at(),
            forall|u: usize|
                u != t && u < old(self).machine().threads@.len() ==> final(self).job(u)
                    == old(self).job(u),
            final(self).machine() == old(self).machine(),
    {
        let h: usize = match self.jobs[t] {
            Job::PopHead(h) => h,
            _ => 0,
        };
        proof {
            assert(self.job_ok(t as int));
            self.lemma_held_place(t, h);
        }
        let tl: usize = self.tail;
        self.jobs[t] = Job::PopTail(h, tl);
        proof {
            old(self).lemma_quiet(self, t);
            old(self).lemma_holding_ok(self, t);
            assert(old(self).head_or_gone(h));
            if h != tl {
                // the head node is not where the tail is, so it has a
                // node behind it; a retired node has one anyway
                let chain = self.chain@;
                if chain[0] == h {
                    assert(self.tail_at@ >= 1);
                    assert(self.nodes.at(chain[0]).next == successor(chain, 0));
                    assert(self.ebr.heap.is_live(chain[1]));
                    self.ebr.heap.lemma_null_is_free();
                } else {
                    assert(self.ebr.heap.is_retired(h));
                }
            }
            old(self).lemma_carried(self, t);
        }
    }

    /// Fourth step of a pop: thread `t` reads the link out of the node
    /// that it read the head to be. If that node has no link and is the
    /// one that the tail was read to be, the queue is empty at this step,
    /// and the pop ends with nothing. Says whether it ended so.
    pub fn pop_read_next(&mut self, t: usize) -> (empty: bool)
        requires
            old(self).ok(),
            t < old(self).machine().threads@.len(),
            old(self).job(t) matches Job::PopTail(_, _),
        ensures
            final(self).ok(),
            old(self).job(t) matches Job::PopTail(h, tl) && empty == (h == tl && old(self).link(h)
                == 0) && final(self).job(t) == (if empty {
                Job::Idle
            } else {
                Job::PopNext(h, tl, old(self).link(h))
            }) && old(self).machine().heap.allocated(h),
            empty ==> old(self)@.len() == 0,
            final(self)@ == old(self)@,
            final(self).nodes() == old(self).nodes(),
            final(self).front() == old(self).front(),
            final(self).back() == old(self).back(),
            final(self).back_at() == old(self).back_at(),
            forall|u: usize|
                u != t && u < old(self).machine().threads@.len() ==> final(self).job(u)
                    == old(self).job(u),
            final(self).machine() == old(self).machine(),
    {
        let (h, tl) = match self.jobs[t] {
            Job::PopTail(h, tl) => (h, tl),
            _ => (0, 0),
        };
        proof {
            assert(self.job_ok(t as int));
            self.lemma_held_place(t, h);
        }
        let n: usize = self.link_of(h);
        let empty: bool = h == tl && n == 0;
        if empty {
            self.jobs[t] = Job::Idle;
        } else {
            self.jobs[t] = Job::PopNext(h, tl, n);
        }
        proof {
            old(self).lemma_quiet(self, t);
            old(self).lemma_holding_ok(self, t);
            assert(old(self).head_or_gone(h));
            if empty {
                // the head node is the last node
                assert(self.chain@.len() == 1) by {
                    if self.chain@.len() > 1 {
                        assert(self.chain@[0] != self.chain@[self.chain@.len() - 1]);
                    }
                }
            }
            old(self).lemma_carried(self, t);
        }
        empty
    }

    /// Last step of a pop. If the node that thread `t` read the head to be
    /// is the one that it read the tail to be, the tail was behind: the
    /// thread helps it on, if it is still where it was. Else the thread
    /// tries to swing the head to the next node. That succeeds if the head
    /// is still the node that was read, and then the pop has taken
    /// effect: the old head node is off the list and retired, and the item
    /// of the new head node is returned. Else nothing is returned, and the
    /// pop starts over with reading the head.
    ///
    /// Where the head is still the address that was read, it is still the
    /// node that was read, with the link that was read: the thread holds
    /// the node, so its cell was not freed and the address stands for no
    /// other node.
    pub fn pop_cas(&mut self, t: usize) -> (item: Option<T>)
        requires
            old(self).ok(),
            t < old(self).machine().threads@.len(),
            old(self).job(t) matches Job::PopNext(_, _, _),
        ensures
            final(self).ok(),
            old(self).machine().accounted() ==> final(self).machine().accounted(),
            old(self).job(t) matches Job::PopNext(h, tl, n) && (item is Some) == (h != tl
                && old(self).front() == h) && final(self).job(t) == (if item is Some {
                Job::Idle
            } else {
                Job::Pop
            }) && final(self).front() == (if item is Some {
                n
            } else {
                old(self).front()
            }) && final(self).back() == (if h == tl && old(self).back() == tl {
                n
            } else {
                old(self).back()
            }) && (item is Some ==> old(self).nodes().len() >= 2 && old(self).nodes()[0] == h
                && old(self).nodes()[1] == n && final(self).machine().heap.is_retired(h)),
            item is Some ==> item == taken(old(self)@, Op::Pop),
            final(self)@ == (if item is Some {
                fifo_after(old(self)@, Op::Pop)
            } else {
                old(self)@
            }),
            final(self).nodes() == (if item is Some {
                old(self).nodes().skip(1)
            } else {
                old(self).nodes()
            }),
            forall|u: usize|
                u != t && u < old(self).machine().threads@.len() ==> final(self).job(u)
                    == old(self).job(u),
            old(self).machine().others_same(&final(self).machine(), t),
            final(self).machine().global == old(self).machine().global,
            final(self).machine().phase(t) == Phase::Pinned,
            final(self).machine().threads@[t as int].holding
                == old(self).machine().threads@[t as int].holding,
    {
        let (h, tl, n) = match self.jobs[t] {
            Job::PopNext(h, tl, n) => (h, tl, n),
            _ => (0, 0, 0),
        };
        proof {
            assert(self.job_ok(t as int));
            self.lemma_held_place(t, h);
            assert(self.ebr.heap.is_live(self.chain@[0]));
            assert(self.nodes.at(self.chain@[0]).next == successor(self.chain@, 0));
        }
        if h != tl && self.head == h {
            let ghost before = self.chain@;
            proof {
                assert(self.ahead(h));
                assert(before[1] == n);
                assert(self.ebr.heap.is_live(before[1]));
            }
            self.head = n;
            self.ebr.unlink(t, h);
            let item = self.take_item(n);
            self.jobs[t] = Job::Idle;
            proof {
                self.chain = Ghost(before.skip(1));
                self.tail_at = Ghost(old(self).tail_at@ - 1);
                let chain = self.chain@;
                assert(before[0] == h);
                assert forall|i: int| 0 <= i < chain.len() implies (#[trigger] chain[i])
                    == before[i + 1] && chain[i] != h by {}
                assert forall|i: int| 0 <= i < chain.len() implies self.ebr.heap.is_live(
                    #[trigger] chain[i],
                ) && self.ebr.heap.kind(chain[i]) == QUEUE_STEP_KIND && self.nodes.has(
                    chain[i],
                ) by {
                    assert(chain[i] == before[i + 1]);
                    assert(old(self).ebr.heap.is_live(before[i + 1]));
                    assert(old(self).ebr.heap.same_cell(&self.ebr.heap, chain[i]));
                    if i > 0 {
                        assert(old(self).nodes.same_at(&self.nodes, chain[i]));
                    }
                }
                assert forall|i: int| 0 <= i < chain.len() implies (#[trigger] self.nodes.at(
                    chain[i],
                )).next == successor(chain, i) && (i >= 1 ==> self.nodes.at(
                    chain[i],
                ).data is Some) by {
                    assert(chain[i] == before[i + 1]);
                    assert(old(self).nodes.has(before[i + 1]));
                    assert(old(self).nodes.at(before[i + 1]).next == successor(before, i + 1));
                    if i > 0 {
                        assert(old(self).nodes.same_at(&self.nodes, chain[i]));
                    }
                }
                assert forall|b: usize| #[trigger] self.ebr.heap.is_retired(b)
                    implies self.nodes.has(
                    b,
                ) && self.ebr.heap.kind(b) == QUEUE_STEP_KIND && self.nodes.at(b).next != 0 by {
                    if b != h {
                        assert(old(self).ebr.heap.same_cell(&self.ebr.heap, b));
                        assert(old(self).ebr.heap.is_retired(b));
                        assert(b != n);
                    }
                    assert(old(self).nodes.same_at(&self.nodes, b));
                }
                assert(self.list_ok());
                assert forall|b: usize|
                    (#[trigger] old(self).published(b)) && self.ebr.heap.allocated(
                        b,
                    ) implies self.published(b) && (old(self).nodes.at(b).next != 0
                    ==> self.nodes.at(b).next == old(self).nodes.at(b).next) by {
                    if b != h {
                        assert(old(self).ebr.heap.same_cell(&self.ebr.heap, b));
                        if before.contains(b) {
                            let i = choose|i: int| 0 <= i < before.len() && before[i] == b;
                            assert(chain[i - 1] == b);
                        }
                    }
                    if b != n {
                        assert(old(self).nodes.same_at(&self.nodes, b));
                    }
                }
                assert forall|b: usize| #[trigger] old(self).own(b) implies self.own(b) by {
                    assert(before.contains(before[0]));
                    assert(before.contains(before[1]));
                    assert(b != h && b != n);
                    assert(old(self).ebr.heap.same_cell(&self.ebr.heap, b));
                    assert(old(self).nodes.same_at(&self.nodes, b));
                    if chain.contains(b) {
                        let i = choose|i: int| 0 <= i < chain.len() && chain[i] == b;
                        assert(before.contains(before[i + 1]));
                    }
                }
                assert forall|b: usize|
                    (#[trigger] old(self).behind_tail(b)) && self.ebr.heap.allocated(
                        b,
                    ) implies self.behind_tail(b) by {
                    if b != h {
                        assert(old(self).ebr.heap.same_cell(&self.ebr.heap, b));
                        if !old(self).ebr.heap.is_retired(b) {
                            let i = choose|i: int|
                                0 <= i <= old(self).tail_at@ && i < before.len()
                                    && #[trigger] before[i] == b;
                            assert(chain[i - 1] == b);
                        }
                    }
                }
                assert forall|b: usize|
                    (#[trigger] old(self).head_or_gone(b)) && self.ebr.heap.allocated(
                        b,
                    ) implies self.head_or_gone(b) && (old(self).ahead(b) ==> self.ahead(b)) by {
                    if b != h {
                        assert(old(self).ebr.heap.same_cell(&self.ebr.heap, b));
                    }
                    assert(self.ebr.heap.is_live(chain[0]));
                }
                assert(old(self).carries(self, t));
                old(self).lemma_holding_ok(self, t);
                assert forall|b: usize| #[trigger] self.ebr.heap.is_live(b)
                    implies old(self).ebr.heap.is_live(b) by {
                    if b != h {
                        assert(old(self).ebr.heap.same_cell(&self.ebr.heap, b));
                    }
                }
                assert forall|b: usize| before.contains(b) && #[trigger] self.ebr.heap.is_live(
                    b,
                ) implies chain.contains(b) by {
                    let i = choose|i: int| 0 <= i < before.len() && before[i] == b;
                    assert(i > 0);
                    assert(chain[i - 1] == b);
                }
                old(self).lemma_carried(self, t);
                assert forall|i: int| 0 <= i < self@.len() implies self@[i] == old(self)@[i
                    + 1] by {
                    assert(chain[i + 1] == before[i + 2]);
                    assert(old(self).nodes.has(before[i + 2]));
                    assert(old(self).nodes.same_at(&self.nodes, chain[i + 1]));
                }
                assert(self@ =~= old(self)@.skip(1));
                assert(self.nodes() =~= old(self).nodes().skip(1));
                assert(old(self)@[0] == old(self).nodes.at(before[1]).data->0);
            }
            return item;
        }
        if h == tl && self.tail == tl {
            self.tail = n;
            proof {
                self.tail_at = Ghost(old(self).tail_at@ + 1);
            }
        }
        self.jobs[t] = Job::Pop;
        proof {
            if h == tl && old(self).tail == tl {
                old(self).lemma_swung(self, t);
            } else {
                old(self).lemma_quiet(self, t);
            }
            old(self).lemma_holding_ok(self, t);
            old(self).lemma_carried(self, t);
        }
        None
    }
}

} // verus!
