//! Treiber's stack, one access to shared memory at a time.
//!
//! `TreiberStack` runs a push or a pop as one step. Here the two are cut
//! into the steps between which other threads may run: a push reads the
//! head, links its node to what it read and tries to swing the head to its
//! node; a pop reads the head, reads the link out of the node that it
//! found and tries to swing the head to where the link points. Each try
//! succeeds only if the head is still what was read. The caller decides
//! which thread takes the next step, of a push, of a pop, or of the pin and
//! collect protocol.
//!
//! Whatever the order, the stack stays a well-formed list, every push and
//! every pop takes effect at the step at which its compare-and-set
//! succeeds, and a pop never reads a node that was freed: the node that it
//! read the head to be stays allocated, and so cannot come back under the
//! same address, as long as the thread is pinned. No cell goes astray:
//! a live cell is a node on the stack or the node of a push under way, and
//! a retired cell is in the bags of the thread that popped it.

use crate::mem::epoch::heap::Holder;
use crate::mem::epoch::participants::successor;
use crate::mem::epoch::protocol::{Machine, Phase};
use crate::mem::epoch::{Arena, Shared};
use crate::sync::order::{lifo_after, taken, Op};
use vstd::prelude::*;

verus! {

/// The kind of the heap cells that hold the nodes of a stack that is run
/// step by step.
pub const STEP_KIND: usize = 5;

/// A node: an item, gone once the node was popped, and the address of the
/// node below, 0 for none.
pub struct Cell<T> {
    data: Option<T>,
    next: usize,
}

/// What a thread is about on the stack.
#[derive(Clone, Copy, Debug, PartialEq, Eq, Structural)]
pub enum Job {
    /// Nothing.
    Idle,
    /// A push: the node, at the address given, is filled.
    Push(usize),
    /// A push: the node, at the first address, is linked to what the head
    /// was read to be, the second address.
    Linked(usize, usize),
    /// A pop: nothing is read yet.
    Pop,
    /// A pop: the head was read to be the address given.
    Read(usize),
    /// A pop: the head was read to be the first address, and the link out
    /// of that node to be the second.
    Next(usize, usize),
}

/// The node that a thread with the job `j` has allocated and not yet
/// published.
pub open spec fn unpublished(j: Job) -> Option<usize> {
    match j {
        Job::Push(a) => Some(a),
        Job::Linked(a, _) => Some(a),
        _ => None,
    }
}

/// A stack, the threads that work on it, and what each is about.
pub struct Steps<T> {
    ebr: Machine,
    head: usize,
    nodes: Arena<Cell<T>>,
    jobs: Vec<Job>,
    chain: Ghost<Seq<usize>>,
}

impl<T> Steps<T> {
    /// The threads, the global epoch and the allocator's books.
    pub closed spec fn machine(&self) -> Machine {
        self.ebr
    }

    /// The threads, the global epoch and the allocator's books.
    pub fn ebr(&self) -> (m: &Machine)
        ensures
            *m == self.machine(),
    {
        &self.ebr
    }

    /// The addresses of the nodes on the stack, the top first.
    pub closed spec fn nodes(&self) -> Seq<usize> {
        self.chain@
    }

    /// The items on the stack, the top first.
    pub closed spec fn view(&self) -> Seq<T> {
        Seq::new(self.chain@.len(), |i: int| self.nodes.at(self.chain@[i]).data->0)
    }

    /// What thread `t` is about.
    pub closed spec fn job(&self, t: usize) -> Job {
        self.jobs@[t as int]
    }

    /// The item in the node at `a`.
    pub closed spec fn item(&self, a: usize) -> Option<T> {
        self.nodes.at(a).data
    }

    /// The node at `a` is one that a thread has allocated and filled, and
    /// that is not on the stack.
    spec fn own(&self, a: usize) -> bool {
        &&& self.ebr.heap.is_live(a)
        &&& self.ebr.heap.kind(a) == STEP_KIND
        &&& self.nodes.has(a)
        &&& self.nodes.at(a).data is Some
        &&& !self.chain@.contains(a)
    }

    /// The node at `a` was published: it is on the stack, or it was popped
    /// and is retired.
    spec fn published(&self, a: usize) -> bool {
        &&& self.nodes.has(a)
        &&& self.ebr.heap.kind(a) == STEP_KIND
        &&& self.chain@.contains(a) || self.ebr.heap.is_retired(a)
    }

    /// What holds of thread `t` and its job.
    spec fn job_ok(&self, t: int) -> bool {
        let th = self.ebr.threads@[t];
        &&& forall|i: int| 0 <= i < th.holding@.len() ==> self.published(#[trigger] th.holding@[i])
        &&& match self.jobs@[t] {
            Job::Idle => true,
            Job::Push(a) => th.phase == Phase::Pinned && self.own(a),
            Job::Linked(a, h) => th.phase == Phase::Pinned && self.own(a) && self.nodes.at(a).next
                == h,
            Job::Pop => th.phase == Phase::Pinned,
            Job::Read(h) => th.phase == Phase::Pinned && th.holding@.contains(h) && h != 0,
            Job::Next(h, n) => th.phase == Phase::Pinned && th.holding@.contains(h) && h != 0
                && self.nodes.at(h).next == n,
        }
    }

    /// The list is well formed: its nodes are distinct live cells, each
    /// with an item and linked to the node below, and the head points to
    /// the top.
    spec fn list_ok(&self) -> bool {
        let chain = self.chain@;
        &&& self.nodes.kind() == STEP_KIND
        &&& forall|i: int, j: int| 0 <= i < j < chain.len() ==> chain[i] != chain[j]
        &&& self.head == (if chain.len() > 0 {
            chain[0]
        } else {
            0
        })
        &&& forall|i: int|
            0 <= i < chain.len() ==> self.ebr.heap.is_live(#[trigger] chain[i])
                && self.ebr.heap.kind(chain[i]) == STEP_KIND && self.nodes.has(chain[i])
        &&& forall|i: int|
            0 <= i < chain.len() ==> (#[trigger] self.nodes.at(chain[i])).next == successor(
                chain,
                i,
            ) && self.nodes.at(chain[i]).data is Some
    }

    /// The invariant: the protocol is in order, the list is well formed,
    /// every thread is where its job says, and no two threads have the
    /// same unpublished node.
    pub closed spec fn ok(&self) -> bool {
        &&& self.ebr.safe()
        &&& self.jobs@.len() == self.ebr.threads@.len()
        &&& self.list_ok()
        &&& forall|t: int| 0 <= t < self.jobs@.len() ==> #[trigger] self.job_ok(t)
        &&& forall|t: int, u: int|
            0 <= t < self.jobs@.len() && 0 <= u < self.jobs@.len() && t != u && unpublished(
                #[trigger] self.jobs@[t],
            ) is Some ==> unpublished(self.jobs@[t]) != unpublished(#[trigger] self.jobs@[u])
        &&& forall|a: usize| #[trigger]
            self.ebr.heap.is_live(a) ==> self.chain@.contains(a) || self.pushing(a)
    }

    /// The node at `a` is the unpublished node of a push that is under
    /// way.
    spec fn pushing(&self, a: usize) -> bool {
        exists|t: int| 0 <= t < self.jobs@.len() && unpublished(#[trigger] self.jobs@[t]) == Some(a)
    }

    /// No cell is a stray: every live cell is a node on the stack or the
    /// node of a push that is under way. With the books of the protocol
    /// complete, every allocated cell is one of these or is retired and in
    /// the bags of the thread that popped it.
    pub proof fn lemma_no_stray(&self, a: usize)
        requires
            self.ok(),
            self.machine().heap.is_live(a),
        ensures
            self.nodes().contains(a) || exists|t: usize|
                t < self.machine().threads@.len() && unpublished(#[trigger] self.job(t)) == Some(a),
    {
        if !self.chain@.contains(a) {
            assert(self.pushing(a));
            let t = choose|t: int|
                0 <= t < self.jobs@.len() && unpublished(#[trigger] self.jobs@[t]) == Some(a);
            assert(unpublished(self.job(t as usize)) == Some(a));
        }
    }

    /// Every live cell is known after a step of thread `t` that allocated
    /// only the node of its push, took off the stack only what it retired,
    /// and put its node on the stack if it has it no longer.
    proof fn lemma_known_kept(&self, then: &Self, t: usize)
        requires
            self.ok(),
            t < self.jobs@.len(),
            self.others_kept(then, t),
            forall|a: usize| #[trigger]
                then.ebr.heap.is_live(a) ==> self.ebr.heap.is_live(a) || unpublished(
                    then.jobs@[t as int],
                ) == Some(a),
            forall|a: usize|
                self.chain@.contains(a) && #[trigger] then.ebr.heap.is_live(a)
                    ==> then.chain@.contains(a),
            unpublished(self.jobs@[t as int]) matches Some(a) ==> unpublished(
                then.jobs@[t as int],
            ) == Some(a) || then.chain@.contains(a) || !then.ebr.heap.is_live(a),
        ensures
            forall|a: usize| #[trigger]
                then.ebr.heap.is_live(a) ==> then.chain@.contains(a) || then.pushing(a),
    {
        assert forall|a: usize| #[trigger] then.ebr.heap.is_live(a) implies then.chain@.contains(
            a,
        ) || then.pushing(a) by {
            if unpublished(then.jobs@[t as int]) == Some(a) {
                assert(then.pushing(a));
            } else {
                assert(self.ebr.heap.is_live(a));
                if !self.chain@.contains(a) {
                    assert(self.pushing(a));
                    let u = choose|u: int|
                        0 <= u < self.jobs@.len() && unpublished(#[trigger] self.jobs@[u]) == Some(
                            a,
                        );
                    if u != t {
                        assert(then.jobs@[u] == self.jobs@[u]);
                        assert(then.pushing(a));
                    }
                }
            }
        }
    }

    /// What `ok` says to the outside: the protocol is in order, there is
    /// a job for every thread, a thread with a job is pinned, and what a
    /// thread holds is allocated. A pop that has read the head holds the
    /// node that it read.
    pub proof fn lemma_ok(&self, t: usize)
        requires
            self.ok(),
            t < self.machine().threads@.len(),
        ensures
            self.machine().safe(),
            self.nodes().len() == self@.len(),
            self.job(t) != Job::Idle ==> self.machine().phase(t) == Phase::Pinned,
            self.job(t) matches Job::Read(h) ==> self.machine().holds(t, h)
                && self.machine().heap.allocated(h),
            self.job(t) matches Job::Next(h, _) ==> self.machine().holds(t, h)
                && self.machine().heap.allocated(h),
    {
        assert(self.job_ok(t as int));
        match self.job(t) {
            Job::Read(h) => {
                self.ebr.lemma_held_is_allocated(t, h);
            },
            Job::Next(h, _) => {
                self.ebr.lemma_held_is_allocated(t, h);
            },
            _ => {},
        }
    }

    /// The head is the address of the top node, and a pop that has read
    /// the head and the link finds, if the head is the address that it
    /// read, the node that it read on top, linked to the node that it read
    /// the link to be: between the read and the look nobody has put
    /// another node at that address.
    pub proof fn lemma_head_as_read(&self, t: usize)
        requires
            self.ok(),
            t < self.machine().threads@.len(),
        ensures
            self.top() == (if self.nodes().len() > 0 {
                self.nodes()[0]
            } else {
                0
            }),
            self.nodes().len() > 0 ==> self.top() != 0,
            self.job(t) matches Job::Next(h, n) ==> (self.top() == h ==> self.nodes().len() > 0
                && self.nodes()[0] == h && n == successor(self.nodes(), 0)),
    {
        assert(self.job_ok(t as int));
        if self.chain@.len() > 0 {
            assert(self.ebr.heap.is_live(self.chain@[0]));
            self.ebr.heap.lemma_null_is_free();
            assert(self.nodes.at(self.chain@[0]).next == successor(self.chain@, 0));
        }
    }

    /// Every node on the stack is a live cell that holds its item and is
    /// linked to the node below, the lowest to none.
    pub proof fn lemma_linked(&self, i: int)
        requires
            self.ok(),
            0 <= i < self.nodes().len(),
        ensures
            self.machine().heap.is_live(self.nodes()[i]),
            self.item(self.nodes()[i]) == Some(self@[i]),
            forall|j: int| 0 <= j < self.nodes().len() && j != i ==> self.nodes()[j]
                != self.nodes()[i],
    {
        let chain = self.chain@;
        assert(self.ebr.heap.is_live(chain[i]));
        assert(self.nodes.at(chain[i]).data is Some);
    }

    /// What thread `t` is about.
    pub fn job_of(&self, t: usize) -> (j: Job)
        requires
            self.ok(),
            t < self.machine().threads@.len(),
        ensures
            j == self.job(t),
    {
        self.jobs[t]
    }

    /// The address that the head holds.
    pub fn head(&self) -> (a: usize)
        ensures
            a == self.top(),
    {
        self.head
    }

    /// An empty stack without threads.
    pub fn new() -> (s: Steps<T>)
        ensures
            s.ok(),
            s.machine().accounted(),
            s@ == Seq::<T>::empty(),
            s.machine().threads@.len() == 0,
            s.machine().global == 0,
    {
        let s = Steps {
            ebr: Machine::new(),
            head: 0,
            nodes: Arena::new(STEP_KIND),
            jobs: Vec::new(),
            chain: Ghost(Seq::empty()),
        };
        assert(s@ =~= Seq::<T>::empty());
        assert forall|a: usize| !#[trigger] s.ebr.heap.is_live(a) by {
            assert(!s.ebr.heap.allocated(a));
        }
        s
    }

    /// The stack is in order after a step of the pin and collect protocol
    /// that thread `t` took while it had no job on the stack.
    proof fn lemma_framed(&self, then: &Self, t: usize, bound: int)
        requires
            self.ok(),
            then.ebr.safe(),
            then.head == self.head,
            then.nodes == self.nodes,
            then.jobs == self.jobs,
            then.chain == self.chain,
            t < self.ebr.threads@.len(),
            self.ebr.others_same(&then.ebr, t),
            self.ebr.heap.reclaimed_from(&then.ebr.heap, Holder::Local(t), bound),
            then.ebr.threads@[t as int].holding == self.ebr.threads@[t as int].holding
                || then.ebr.threads@[t as int].holding@.len() == 0,
            self.jobs@[t as int] == Job::Idle,
        ensures
            then.ok(),
    {
        let chain = self.chain@;
        assert forall|i: int| 0 <= i < chain.len() implies then.ebr.heap.is_live(
            #[trigger] chain[i],
        ) && then.ebr.heap.kind(chain[i]) == STEP_KIND && then.nodes.has(chain[i]) by {
            assert(self.ebr.heap.is_live(chain[i]));
            assert(self.ebr.heap.same_cell(&then.ebr.heap, chain[i]));
        }
        assert forall|u: int| 0 <= u < then.jobs@.len() implies #[trigger] then.job_ok(u) by {
            assert(self.job_ok(u));
            assert(then.ebr.thread_ok(u));
            let th = then.ebr.threads@[u];
            if u != t {
                assert(th == self.ebr.threads@[u]);
            }
            assert forall|i: int| 0 <= i < th.holding@.len() implies then.published(
                #[trigger] th.holding@[i],
            ) by {
                let a = th.holding@[i];
                assert(self.published(self.ebr.threads@[u].holding@[i]));
                assert(then.ebr.heap.allocated(th.holding@[i]));
                assert(self.ebr.heap.same_cell(&then.ebr.heap, a));
            }
            match unpublished(self.jobs@[u]) {
                Some(a) => {
                    assert(self.ebr.heap.is_live(a));
                    assert(self.ebr.heap.same_cell(&then.ebr.heap, a));
                },
                None => {},
            }
        }
        assert forall|a: usize| #[trigger] then.ebr.heap.is_live(a) implies then.chain@.contains(
            a,
        ) || then.pushing(a) by {
            assert(self.ebr.heap.same_cell(&then.ebr.heap, a));
            assert(self.ebr.heap.is_live(a));
            if !self.chain@.contains(a) {
                assert(self.pushing(a));
                let u = choose|u: int|
                    0 <= u < self.jobs@.len() && unpublished(#[trigger] self.jobs@[u]) == Some(a);
                assert(unpublished(then.jobs@[u]) == Some(a));
            }
        }
    }

    /// Enrols a thread and returns its number.
    pub fn enroll(&mut self) -> (t: usize)
        requires
            old(self).ok(),
            old(self).machine().threads@.len() < usize::MAX,
        ensures
            final(self).ok(),
            old(self).machine().accounted() ==> final(self).machine().accounted(),
            t == old(self).machine().threads@.len(),
            final(self).machine().threads@.len() == t + 1,
            final(self).machine().phase(t) == Phase::Idle,
            final(self).job(t) == Job::Idle,
            final(self)@ == old(self)@,
            forall|u: usize| u < t ==> final(self).job(u) == old(self).job(u),
    {
        let t = self.ebr.enroll();
        self.jobs.push(Job::Idle);
        proof {
            let chain = self.chain@;
            assert forall|u: int| 0 <= u < self.jobs@.len() implies #[trigger] self.job_ok(u) by {
                if u < t {
                    assert(old(self).job_ok(u));
                    assert(self.ebr.threads@[u] == old(self).ebr.threads@[u]);
                    assert(self.jobs@[u] == old(self).jobs@[u]);
                    let th = self.ebr.threads@[u];
                    assert forall|i: int| 0 <= i < th.holding@.len() implies self.published(
                        #[trigger] th.holding@[i],
                    ) by {
                        assert(old(self).published(old(self).ebr.threads@[u].holding@[i]));
                    }
                } else {
                    assert(self.ebr.thread_ok(u));
                }
            }
            assert forall|v: int, u: int|
                0 <= v < self.jobs@.len() && 0 <= u < self.jobs@.len() && v != u && unpublished(
                    #[trigger] self.jobs@[v],
                ) is Some implies unpublished(self.jobs@[v]) != unpublished(
                #[trigger] self.jobs@[u],
            ) by {
                assert(v < t);
                assert(self.jobs@[v] == old(self).jobs@[v]);
                if u < t {
                    assert(self.jobs@[u] == old(self).jobs@[u]);
                }
            }
            assert forall|a: usize| #[trigger] self.ebr.heap.is_live(a) implies chain.contains(a)
                || self.pushing(a) by {
                if !chain.contains(a) {
                    assert(old(self).pushing(a));
                    let u = choose|u: int|
                        0 <= u < old(self).jobs@.len() && unpublished(
                            #[trigger] old(self).jobs@[u],
                        ) == Some(a);
                    assert(self.jobs@[u] == old(self).jobs@[u]);
                }
            }
            assert(self@ =~= old(self)@);
        }
        t
    }

    /// First step of a pin of thread `t`, which is idle.
    pub fn begin_pin(&mut self, t: usize)
        requires
            old(self).ok(),
            t < old(self).machine().threads@.len(),
            old(self).machine().phase(t) == Phase::Idle,
        ensures
            final(self).ok(),
            old(self).machine().accounted() ==> final(self).machine().accounted(),
            final(self).machine().phase(t) == Phase::Entering,
            final(self)@ == old(self)@,
            final(self).nodes() == old(self).nodes(),
            forall|u: usize| final(self).job(u) == old(self).job(u),
            old(self).machine().others_same(&final(self).machine(), t),
            final(self).machine().global == old(self).machine().global,
    {
        proof {
            assert(old(self).job_ok(t as int));
        }
        self.ebr.begin_pin(t);
        proof {
            old(self).lemma_framed(self, t, 0);
        }
    }

    /// Second step of a pin: thread `t` reads the global epoch.
    pub fn read_epoch(&mut self, t: usize)
        requires
            old(self).ok(),
            t < old(self).machine().threads@.len(),
            old(self).machine().phase(t) == Phase::Entering,
        ensures
            final(self).ok(),
            old(self).machine().accounted() ==> final(self).machine().accounted(),
            final(self).machine().phase(t) == Phase::Adopting(old(self).machine().global),
            final(self)@ == old(self)@,
            final(self).nodes() == old(self).nodes(),
            forall|u: usize| final(self).job(u) == old(self).job(u),
            old(self).machine().others_same(&final(self).machine(), t),
            final(self).machine().global == old(self).machine().global,
    {
        proof {
            assert(old(self).job_ok(t as int));
        }
        self.ebr.read_epoch(t);
        proof {
            old(self).lemma_framed(self, t, 0);
        }
    }

    /// Last step of a pin: thread `t` adopts the epoch that it read, and
    /// frees what it may free if that is a new one. Says whether it freed.
    pub fn adopt(&mut self, t: usize) -> (collected: bool)
        requires
            old(self).ok(),
            t < old(self).machine().threads@.len(),
            old(self).machine().phase(t) matches Phase::Adopting(_),
        ensures
            final(self).ok(),
            collected ==> crate::mem::epoch::garbage::freed(
                &old(self).machine().heap,
                &final(self).machine().heap,
                crate::mem::epoch::protocol::stale_of(
                    &old(self).machine().threads@[t as int].garbage,
                ),
            ),
            old(self).machine().accounted() ==> final(self).machine().accounted(),
            final(self).machine().phase(t) == Phase::Pinned,
            old(self).machine().phase(t) matches Phase::Adopting(seen)
                && final(self).machine().threads@[t as int].epoch == seen && collected == (seen
                != old(self).machine().threads@[t as int].epoch),
            final(self)@ == old(self)@,
            final(self).nodes() == old(self).nodes(),
            forall|u: usize| final(self).job(u) == old(self).job(u),
            old(self).machine().others_same(&final(self).machine(), t),
            final(self).machine().global == old(self).machine().global,
    {
        proof {
            assert(old(self).job_ok(t as int));
        }
        let collected = self.ebr.adopt(t);
        proof {
            old(self).lemma_framed(self, t, self.ebr.global - 2);
        }
        collected
    }

    /// Thread `t`, which is pinned and has no job on the stack, unpins.
    pub fn unpin(&mut self, t: usize)
        requires
            old(self).ok(),
            t < old(self).machine().threads@.len(),
            old(self).machine().phase(t) == Phase::Pinned,
            old(self).job(t) == Job::Idle,
        ensures
            final(self).ok(),
            old(self).machine().accounted() ==> final(self).machine().accounted(),
            final(self).machine().phase(t) == Phase::Idle,
            final(self)@ == old(self)@,
            final(self).nodes() == old(self).nodes(),
            forall|u: usize| final(self).job(u) == old(self).job(u),
            old(self).machine().others_same(&final(self).machine(), t),
            final(self).machine().global == old(self).machine().global,
    {
        self.ebr.unpin(t);
        proof {
            old(self).lemma_framed(self, t, 0);
        }
    }

    /// First step of a collection by thread `t`, which is pinned, has no
    /// job on the stack and holds no pointer.
    pub fn begin_collect(&mut self, t: usize)
        requires
            old(self).ok(),
            t < old(self).machine().threads@.len(),
            old(self).machine().phase(t) == Phase::Pinned,
            old(self).machine().threads@[t as int].holding@.len() == 0,
            old(self).job(t) == Job::Idle,
        ensures
            final(self).ok(),
            old(self).machine().accounted() ==> final(self).machine().accounted(),
            final(self).machine().phase(t) == Phase::Scanning(old(self).machine().global, 0),
            final(self)@ == old(self)@,
            final(self).nodes() == old(self).nodes(),
            forall|u: usize| final(self).job(u) == old(self).job(u),
            old(self).machine().others_same(&final(self).machine(), t),
            final(self).machine().global == old(self).machine().global,
    {
        self.ebr.begin_collect(t);
        proof {
            old(self).lemma_framed(self, t, 0);
        }
    }

    /// One step of the walk of a collection: thread `t` looks at the next
    /// participant. Says whether the collection goes on.
    pub fn check_next(&mut self, t: usize) -> (goes_on: bool)
        requires
            old(self).ok(),
            t < old(self).machine().threads@.len(),
            old(self).machine().phase(t) matches Phase::Scanning(_, next)
                && next < old(self).machine().threads@.len(),
        ensures
            final(self).ok(),
            old(self).machine().accounted() ==> final(self).machine().accounted(),
            old(self).machine().phase(t) matches Phase::Scanning(e, next) && goes_on
                == !(old(self).machine().threads@[next as int].in_critical > 0
                && old(self).machine().threads@[next as int].epoch != e)
                && final(self).machine().phase(t) == (
            if goes_on {
                Phase::Scanning(e, (next + 1) as usize)
            } else {
                Phase::Pinned
            }),
            final(self)@ == old(self)@,
            final(self).nodes() == old(self).nodes(),
            forall|u: usize| final(self).job(u) == old(self).job(u),
            old(self).machine().others_same(&final(self).machine(), t),
            final(self).machine().global == old(self).machine().global,
    {
        proof {
            assert(old(self).job_ok(t as int));
        }
        let goes_on = self.ebr.check_next(t);
        proof {
            old(self).lemma_framed(self, t, 0);
        }
        goes_on
    }

    /// Last step of a collection: thread `t` tries to move the global
    /// epoch on, and frees what it may free if it did. Says whether it
    /// did.
    pub fn advance(&mut self, t: usize) -> (advanced: bool)
        requires
            old(self).ok(),
            t < old(self).machine().threads@.len(),
            old(self).machine().phase(t) matches Phase::Scanning(_, next) && next
                == old(self).machine().threads@.len(),
        ensures
            final(self).ok(),
            advanced ==> crate::mem::epoch::garbage::freed(
                &old(self).machine().heap,
                &final(self).machine().heap,
                crate::mem::epoch::protocol::stale_of(
                    &old(self).machine().threads@[t as int].garbage,
                ),
            ),
            old(self).machine().accounted() ==> final(self).machine().accounted(),
            final(self).machine().phase(t) == Phase::Pinned,
            old(self).machine().phase(t) matches Phase::Scanning(e, _) && advanced
                == (old(self).machine().global == e && e < usize::MAX - 1),
            final(self).machine().global == (if advanced {
                old(self).machine().global + 1
            } else {
                old(self).machine().global as int
            }),
            final(self)@ == old(self)@,
            final(self).nodes() == old(self).nodes(),
            forall|u: usize| final(self).job(u) == old(self).job(u),
            old(self).machine().others_same(&final(self).machine(), t),
    {
        proof {
            assert(old(self).job_ok(t as int));
        }
        let advanced = self.ebr.advance(t);
        proof {
            old(self).lemma_framed(self, t, self.ebr.global - 2);
        }
        advanced
    }

    /// The threads other than `t` are about what they were about, and hold
    /// what they held.
    spec fn others_kept(&self, then: &Self, t: usize) -> bool {
        &&& then.jobs@.len() == self.jobs@.len()
        &&& then.ebr.threads@.len() == self.ebr.threads@.len()
        &&& forall|u: int|
            0 <= u < self.jobs@.len() && u != t ==> (#[trigger] then.jobs@[u]) == self.jobs@[u]
        &&& forall|u: int|
            0 <= u < self.jobs@.len() && u != t ==> (#[trigger] then.ebr.threads@[u])
                == self.ebr.threads@[u]
    }

    /// A thread other than the one that took a step is in order after the
    /// step, if the step kept every published node and every unpublished
    /// node of another thread, with their links.
    proof fn lemma_other_job_ok(&self, then: &Self, t: usize, u: int)
        requires
            self.ok(),
            t < self.jobs@.len(),
            0 <= u < self.jobs@.len(),
            u != t,
            self.others_kept(then, t),
            forall|a: usize| #[trigger]
                self.published(a) ==> then.published(a) && then.nodes.at(a).next
                    == self.nodes.at(a).next,
            forall|a: usize|
                (#[trigger] self.own(a)) && unpublished(self.jobs@[t as int]) != Some(a)
                    ==> then.own(a) && then.nodes.at(a).next == self.nodes.at(a).next,
        ensures
            then.job_ok(u),
    {
        assert(self.job_ok(u));
        assert(then.ebr.threads@[u] == self.ebr.threads@[u]);
        assert(then.jobs@[u] == self.jobs@[u]);
        let th = then.ebr.threads@[u];
        assert forall|i: int| 0 <= i < th.holding@.len() implies then.published(
            #[trigger] th.holding@[i],
        ) by {
            assert(self.published(self.ebr.threads@[u].holding@[i]));
        }
        assert(unpublished(self.jobs@[u]) is Some ==> unpublished(self.jobs@[u]) != unpublished(
            self.jobs@[t as int],
        ));
        match self.jobs@[u] {
            Job::Push(a) => {
                assert(self.own(a));
            },
            Job::Linked(a, h) => {
                assert(self.own(a));
            },
            Job::Next(h, n) => {
                let i = choose|i: int| 0 <= i < th.holding@.len() && th.holding@[i] == h;
                assert(self.published(self.ebr.threads@[u].holding@[i]));
            },
            _ => {},
        }
    }

    /// No two threads have the same unpublished node after a step of
    /// thread `t` that left it without one, or with the one that it had.
    proof fn lemma_unpublished_apart(&self, then: &Self, t: usize)
        requires
            self.ok(),
            t < self.jobs@.len(),
            self.others_kept(then, t),
            unpublished(then.jobs@[t as int]) is None || unpublished(then.jobs@[t as int])
                == unpublished(self.jobs@[t as int]),
        ensures
            forall|v: int, u: int|
                0 <= v < then.jobs@.len() && 0 <= u < then.jobs@.len() && v != u && unpublished(
                    #[trigger] then.jobs@[v],
                ) is Some ==> unpublished(then.jobs@[v]) != unpublished(#[trigger] then.jobs@[u]),
    {
        assert forall|v: int, u: int|
            0 <= v < then.jobs@.len() && 0 <= u < then.jobs@.len() && v != u && unpublished(
                #[trigger] then.jobs@[v],
            ) is Some implies unpublished(then.jobs@[v]) != unpublished(
            #[trigger] then.jobs@[u],
        ) by {
            if v != t {
                assert(then.jobs@[v] == self.jobs@[v]);
            }
            if u != t {
                assert(then.jobs@[u] == self.jobs@[u]);
            }
            if unpublished(self.jobs@[v]) is Some {
                assert(unpublished(self.jobs@[v]) != unpublished(self.jobs@[u]));
            }
        }
    }

    /// First step of a push by thread `t`, which is pinned and has no job:
    /// a node is allocated and filled with `value`.
    pub fn start_push(&mut self, t: usize, value: T)
        requires
            old(self).ok(),
            t < old(self).machine().threads@.len(),
            old(self).machine().phase(t) == Phase::Pinned,
            old(self).job(t) == Job::Idle,
        ensures
            final(self).ok(),
            old(self).machine().accounted() ==> final(self).machine().accounted(),
            final(self).job(t) matches Job::Push(a) && final(self).item(a) == Some(value)
                && !old(self).machine().heap.allocated(a),
            final(self)@ == old(self)@,
            final(self).nodes() == old(self).nodes(),
            forall|u: usize|
                u != t && u < old(self).machine().threads@.len() ==> final(self).job(u)
                    == old(self).job(u),
            final(self).machine().threads == old(self).machine().threads,
            final(self).machine().global == old(self).machine().global,
    {
        let a = self.ebr.allocate(t, STEP_KIND);
        self.nodes.put(a, Cell { data: Some(value), next: 0 });
        self.jobs[t] = Job::Push(a);
        proof {
            let chain = self.chain@;
            // whatever was referred to before is allocated, so it is not
            // the new node
            assert forall|i: int| 0 <= i < chain.len() implies (#[trigger] chain[i]) != a
                && old(self).nodes.same_at(&self.nodes, chain[i]) && self.ebr.heap.is_live(
                chain[i],
            ) && self.ebr.heap.kind(chain[i]) == STEP_KIND by {
                assert(old(self).ebr.heap.is_live(chain[i]));
                assert(old(self).ebr.heap.same_cell(&self.ebr.heap, chain[i]));
            }
            assert forall|i: int| 0 <= i < chain.len() implies (#[trigger] self.nodes.at(
                chain[i],
            )).next == successor(chain, i) && self.nodes.at(chain[i]).data is Some by {
                assert(chain[i] != a);
                assert(old(self).nodes.has(chain[i]));
                assert(old(self).nodes.at(chain[i]).next == successor(chain, i));
            }
            assert(!chain.contains(a)) by {
                if chain.contains(a) {
                    let i = choose|i: int| 0 <= i < chain.len() && chain[i] == a;
                    assert(chain[i] != a);
                }
            }
            assert forall|b: usize| #[trigger] old(self).published(b) implies self.published(
                b,
            ) && b != a by {
                if old(self).chain@.contains(b) {
                    let i = choose|i: int| 0 <= i < chain.len() && chain[i] == b;
                    assert(old(self).ebr.heap.is_live(chain[i]));
                }
                assert(old(self).ebr.heap.same_cell(&self.ebr.heap, b));
                assert(old(self).nodes.same_at(&self.nodes, b));
            }
            assert forall|u: int| 0 <= u < self.jobs@.len() implies #[trigger] self.job_ok(u) by {
                assert(old(self).job_ok(u));
                let th = self.ebr.threads@[u];
                assert forall|i: int| 0 <= i < th.holding@.len() implies self.published(
                    #[trigger] th.holding@[i],
                ) by {
                    assert(old(self).published(old(self).ebr.threads@[u].holding@[i]));
                }
                if u != t {
                    assert(self.jobs@[u] == old(self).jobs@[u]);
                    match self.jobs@[u] {
                        Job::Push(b) => {
                            assert(old(self).ebr.heap.same_cell(&self.ebr.heap, b));
                            assert(old(self).nodes.same_at(&self.nodes, b));
                        },
                        Job::Linked(b, h) => {
                            assert(old(self).ebr.heap.same_cell(&self.ebr.heap, b));
                            assert(old(self).nodes.same_at(&self.nodes, b));
                        },
                        Job::Next(h, n) => {
                            assert(old(self).published(h)) by {
                                let i = choose|i: int|
                                    0 <= i < th.holding@.len() && th.holding@[i] == h;
                                assert(old(self).published(
                                    old(self).ebr.threads@[u].holding@[i],
                                ));
                            }
                            assert(old(self).nodes.same_at(&self.nodes, h));
                        },
                        _ => {},
                    }
                }
            }
            assert forall|v: int, u: int|
                0 <= v < self.jobs@.len() && 0 <= u < self.jobs@.len() && v != u && unpublished(
                    #[trigger] self.jobs@[v],
                ) is Some implies unpublished(self.jobs@[v]) != unpublished(
                #[trigger] self.jobs@[u],
            ) by {
                if v != t && u != t {
                    assert(self.jobs@[v] == old(self).jobs@[v]);
                    assert(self.jobs@[u] == old(self).jobs@[u]);
                } else {
                    let w = if v == t {
                        u
                    } else {
                        v
                    };
                    assert(old(self).job_ok(w));
                    assert(self.jobs@[w] == old(self).jobs@[w]);
                }
            }
            assert forall|i: int| 0 <= i < self@.len() implies self@[i] == old(self)@[i] by {
                assert(chain[i] != a);
                assert(old(self).nodes.has(chain[i]));
            }
            assert forall|b: usize| #[trigger] self.ebr.heap.is_live(b)
                implies old(self).ebr.heap.is_live(b) || unpublished(self.jobs@[t as int])
                == Some(b) by {
                if b != a {
                    assert(old(self).ebr.heap.same_cell(&self.ebr.heap, b));
                }
            }
            old(self).lemma_known_kept(self, t);
            assert(self@ =~= old(self)@);
        }
    }

    /// Sets the link out of the node at `a`.
    fn set_link(&mut self, a: usize, next: usize)
        requires
            old(self).nodes.has(a),
        ensures
            final(self).nodes.has(a),
            final(self).nodes.at(a).next == next,
            final(self).nodes.at(a).data == old(self).nodes.at(a).data,
            forall|b: usize| b != a ==> old(self).nodes.same_at(&final(self).nodes, b),
            final(self).nodes.kind() == old(self).nodes.kind(),
            final(self).ebr == old(self).ebr,
            final(self).head == old(self).head,
            final(self).jobs == old(self).jobs,
            final(self).chain == old(self).chain,
    {
        let mut cell = self.nodes.take(a);
        let ghost taken = self.nodes;
        cell.next = next;
        self.nodes.put(a, cell);
        proof {
            assert forall|b: usize| b != a implies old(self).nodes.same_at(&self.nodes, b) by {
                assert(old(self).nodes.same_at(&taken, b));
                assert(taken.same_at(&self.nodes, b));
            }
        }
    }

    /// Takes the item out of the node at `a`.
    fn take_item(&mut self, a: usize) -> (t: Option<T>)
        requires
            old(self).nodes.has(a),
        ensures
            t == old(self).nodes.at(a).data,
            final(self).nodes.has(a),
            final(self).nodes.at(a).next == old(self).nodes.at(a).next,
            final(self).nodes.at(a).data is None,
            forall|b: usize| b != a ==> old(self).nodes.same_at(&final(self).nodes, b),
            final(self).nodes.kind() == old(self).nodes.kind(),
            final(self).ebr == old(self).ebr,
            final(self).head == old(self).head,
            final(self).jobs == old(self).jobs,
            final(self).chain == old(self).chain,
    {
        let mut cell = self.nodes.take(a);
        let ghost taken = self.nodes;
        let t = cell.data.take();
        self.nodes.put(a, cell);
        proof {
            assert forall|b: usize| b != a implies old(self).nodes.same_at(&self.nodes, b) by {
                assert(old(self).nodes.same_at(&taken, b));
                assert(taken.same_at(&self.nodes, b));
            }
        }
        t
    }

    /// Second step of a push: thread `t` reads the head and links its node
    /// to what it read.
    pub fn push_read_head(&mut self, t: usize)
        requires
            old(self).ok(),
            t < old(self).machine().threads@.len(),
            old(self).job(t) matches Job::Push(_),
        ensures
            final(self).ok(),
            old(self).job(t) matches Job::Push(a) && final(self).job(t) == Job::Linked(
                a,
                old(self).top(),
            ) && final(self).item(a) == old(self).item(a),
            final(self)@ == old(self)@,
            final(self).nodes() == old(self).nodes(),
            forall|u: usize|
                u != t && u < old(self).machine().threads@.len() ==> final(self).job(u)
                    == old(self).job(u),
            final(self).machine() == old(self).machine(),
    {
        proof {
            assert(self.job_ok(t as int));
        }
        let a: usize = match self.jobs[t] {
            Job::Push(a) => a,
            _ => 0,
        };
        let h: usize = self.head;
        self.set_link(a, h);
        self.jobs[t] = Job::Linked(a, h);
        proof {
            let chain = self.chain@;
            assert forall|i: int| 0 <= i < chain.len() implies (#[trigger] chain[i]) != a
                && old(self).nodes.same_at(&self.nodes, chain[i]) by {
                assert(chain.contains(chain[i]));
            }
            assert forall|i: int| 0 <= i < chain.len() implies (#[trigger] self.nodes.at(
                chain[i],
            )).next == successor(chain, i) && self.nodes.at(chain[i]).data is Some by {
                assert(chain[i] != a);
                assert(old(self).nodes.has(chain[i]));
                assert(old(self).nodes.at(chain[i]).next == successor(chain, i));
            }
            assert forall|b: usize| #[trigger] old(self).published(b) implies self.published(b)
                && self.nodes.at(b).next == old(self).nodes.at(b).next by {
                assert(b != a);
                assert(old(self).nodes.same_at(&self.nodes, b));
            }
            assert forall|b: usize|
                (#[trigger] old(self).own(b)) && unpublished(old(self).jobs@[t as int]) != Some(
                    b,
                ) implies self.own(b) && self.nodes.at(b).next == old(self).nodes.at(b).next by {
                assert(old(self).nodes.same_at(&self.nodes, b));
            }
            assert forall|u: int| 0 <= u < self.jobs@.len() implies #[trigger] self.job_ok(u) by {
                if u != t {
                    old(self).lemma_other_job_ok(self, t, u);
                } else {
                    assert(old(self).job_ok(u));
                    let th = self.ebr.threads@[u];
                    assert forall|i: int| 0 <= i < th.holding@.len() implies self.published(
                        #[trigger] th.holding@[i],
                    ) by {
                        assert(old(self).published(old(self).ebr.threads@[u].holding@[i]));
                    }
                }
            }
            old(self).lemma_unpublished_apart(self, t);
            old(self).lemma_known_kept(self, t);
            assert forall|i: int| 0 <= i < self@.len() implies self@[i] == old(self)@[i] by {
                assert(chain[i] != a);
                assert(old(self).nodes.has(chain[i]));
            }
            assert(self@ =~= old(self)@);
        }
    }

    /// The address that the head holds: that of the top node, 0 for an
    /// empty stack.
    pub closed spec fn top(&self) -> usize {
        self.head
    }

    /// Last step of a push: thread `t` swings the head to its node, if the
    /// head is still what it read. If so, the push has taken effect:
    /// the item is on top of the stack. If not, the push starts over with
    /// reading the head. Says whether the push took effect.
    pub fn push_cas(&mut self, t: usize) -> (done: bool)
        requires
            old(self).ok(),
            t < old(self).machine().threads@.len(),
            old(self).job(t) matches Job::Linked(_, _),
        ensures
            final(self).ok(),
            old(self).job(t) matches Job::Linked(a, h) && old(self).item(a) matches Some(value)
                && done == (old(self).top() == h) && final(self).job(t) == (if done {
                Job::Idle
            } else {
                Job::Push(a)
            }) && final(self)@ == (if done {
                lifo_after(old(self)@, Op::Push(value))
            } else {
                old(self)@
            }) && final(self).nodes() == (if done {
                seq![a] + old(self).nodes()
            } else {
                old(self).nodes()
            }) && final(self).item(a) == old(self).item(a),
            forall|u: usize|
                u != t && u < old(self).machine().threads@.len() ==> final(self).job(u)
                    == old(self).job(u),
            final(self).machine() == old(self).machine(),
    {
        proof {
            assert(self.job_ok(t as int));
        }
        let (a, h) = match self.jobs[t] {
            Job::Linked(a, h) => (a, h),
            _ => (0, 0),
        };
        let done: bool = self.head == h;
        if done {
            self.head = a;
            self.jobs[t] = Job::Idle;
            proof {
                let below = old(self).chain@;
                self.chain = Ghost(seq![a] + below);
                let chain = self.chain@;
                assert forall|i: int| 1 <= i < chain.len() implies (#[trigger] chain[i])
                    == below[i - 1] && chain[i] != a by {
                    assert(below.contains(below[i - 1]));
                }
                assert forall|i: int, j: int| 0 <= i < j < chain.len() implies chain[i]
                    != chain[j] by {
                    assert(chain[j] == below[j - 1]);
                    if i > 0 {
                        assert(chain[i] == below[i - 1]);
                    }
                }
                assert forall|i: int| 0 <= i < chain.len() implies self.ebr.heap.is_live(
                    #[trigger] chain[i],
                ) && self.ebr.heap.kind(chain[i]) == STEP_KIND && self.nodes.has(chain[i]) by {
                    if i > 0 {
                        assert(chain[i] == below[i - 1]);
                        assert(old(self).nodes.has(below[i - 1]));
                    }
                }
                assert forall|i: int| 0 <= i < chain.len() implies (#[trigger] self.nodes.at(
                    chain[i],
                )).next == successor(chain, i) && self.nodes.at(chain[i]).data is Some by {
                    if i > 0 {
                        assert(chain[i] == below[i - 1]);
                        assert(old(self).nodes.at(below[i - 1]).next == successor(below, i - 1));
                    }
                }
                assert forall|b: usize| #[trigger] old(self).published(b) implies self.published(
                    b,
                ) && self.nodes.at(b).next == old(self).nodes.at(b).next by {
                    if below.contains(b) {
                        let i = choose|i: int| 0 <= i < below.len() && below[i] == b;
                        assert(chain[i + 1] == b);
                    }
                }
                assert forall|b: usize|
                    (#[trigger] old(self).own(b)) && unpublished(old(self).jobs@[t as int])
                        != Some(b) implies self.own(b) && self.nodes.at(b).next
                            == old(self).nodes.at(b).next by {
                    if chain.contains(b) {
                        let i = choose|i: int| 0 <= i < chain.len() && chain[i] == b;
                        if i > 0 {
                            assert(below.contains(below[i - 1]));
                        }
                    }
                }
                assert forall|u: int| 0 <= u < self.jobs@.len() implies #[trigger] self.job_ok(
                    u,
                ) by {
                    if u != t {
                        old(self).lemma_other_job_ok(self, t, u);
                    } else {
                        assert(old(self).job_ok(u));
                        let th = self.ebr.threads@[u];
                        assert forall|i: int| 0 <= i < th.holding@.len() implies self.published(
                            #[trigger] th.holding@[i],
                        ) by {
                            assert(old(self).published(old(self).ebr.threads@[u].holding@[i]));
                        }
                    }
                }
                old(self).lemma_unpublished_apart(self, t);
                assert forall|b: usize| below.contains(b) implies chain.contains(b) by {
                    let i = choose|i: int| 0 <= i < below.len() && below[i] == b;
                    assert(chain[i + 1] == b);
                }
                assert(chain[0] == a);
                old(self).lemma_known_kept(self, t);
                assert forall|i: int| 1 <= i < self@.len() implies self@[i] == old(self)@[i
                    - 1] by {
                    assert(chain[i] == below[i - 1]);
                }
                assert(self@ =~= seq![old(self).nodes.at(a).data->0] + old(self)@);
                assert(self.nodes() =~= seq![a] + old(self).nodes());
            }
        } else {
            self.jobs[t] = Job::Push(a);
            proof {
                assert forall|b: usize| #[trigger] old(self).published(b) implies self.published(
                    b,
                ) && self.nodes.at(b).next == old(self).nodes.at(b).next by {}
                assert forall|b: usize|
                    (#[trigger] old(self).own(b)) && unpublished(old(self).jobs@[t as int])
                        != Some(b) implies self.own(b) && self.nodes.at(b).next
                            == old(self).nodes.at(b).next by {}
                assert forall|u: int| 0 <= u < self.jobs@.len() implies #[trigger] self.job_ok(
                    u,
                ) by {
                    if u != t {
                        old(self).lemma_other_job_ok(self, t, u);
                    } else {
                        assert(old(self).job_ok(u));
                        let th = self.ebr.threads@[u];
                        assert forall|i: int| 0 <= i < th.holding@.len() implies self.published(
                            #[trigger] th.holding@[i],
                        ) by {
                            assert(old(self).published(old(self).ebr.threads@[u].holding@[i]));
                        }
                    }
                }
                old(self).lemma_unpublished_apart(self, t);
                old(self).lemma_known_kept(self, t);
                assert(self@ =~= old(self)@);
            }
        }
        done
    }

    /// Thread `t` is in order after a step of its own that kept what it
    /// held and what was published.
    proof fn lemma_holding_ok(&self, then: &Self, t: usize)
        requires
            self.ok(),
            t < self.jobs@.len(),
            then.ebr.threads@[t as int].holding == self.ebr.threads@[t as int].holding,
            forall|a: usize| #[trigger] self.published(a) ==> then.published(a),
        ensures
            forall|i: int|
                0 <= i < then.ebr.threads@[t as int].holding@.len() ==> then.published(
                    #[trigger] then.ebr.threads@[t as int].holding@[i],
                ),
    {
        assert(self.job_ok(t as int));
        let th = then.ebr.threads@[t as int];
        assert forall|i: int| 0 <= i < th.holding@.len() implies then.published(
            #[trigger] th.holding@[i],
        ) by {
            assert(self.published(self.ebr.threads@[t as int].holding@[i]));
        }
    }

    /// First step of a pop by thread `t`, which is pinned and has no job.
    pub fn start_pop(&mut self, t: usize)
        requires
            old(self).ok(),
            t < old(self).machine().threads@.len(),
            old(self).machine().phase(t) == Phase::Pinned,
            old(self).job(t) == Job::Idle,
        ensures
            final(self).ok(),
            final(self).job(t) == Job::Pop,
            final(self)@ == old(self)@,
            final(self).nodes() == old(self).nodes(),
            forall|u: usize|
                u != t && u < old(self).machine().threads@.len() ==> final(self).job(u)
                    == old(self).job(u),
            final(self).machine() == old(self).machine(),
    {
        self.jobs[t] = Job::Pop;
        proof {
            assert forall|u: int| 0 <= u < self.jobs@.len() implies #[trigger] self.job_ok(u) by {
                if u != t {
                    old(self).lemma_other_job_ok(self, t, u);
                } else {
                    old(self).lemma_holding_ok(self, t);
                }
            }
            old(self).lemma_unpublished_apart(self, t);
            old(self).lemma_known_kept(self, t);
            assert(self@ =~= old(self)@);
        }
    }

    /// Second step of a pop: thread `t` reads the head. If the stack is
    /// empty the pop ends here, with nothing. If not, the thread now holds
    /// a pointer to the top node. Says whether it found a node.
    pub fn pop_read_head(&mut self, t: usize) -> (found: bool)
        requires
            old(self).ok(),
            t < old(self).machine().threads@.len(),
            old(self).job(t) == Job::Pop,
        ensures
            final(self).ok(),
            old(self).machine().accounted() ==> final(self).machine().accounted(),
            found == (old(self)@.len() > 0),
            final(self).job(t) == (if found {
                Job::Read(old(self).top())
            } else {
                Job::Idle
            }),
            found ==> old(self).top() == old(self).nodes()[0] && final(self).machine().holds(
                t,
                old(self).top(),
            ),
            final(self)@ == old(self)@,
            final(self).nodes() == old(self).nodes(),
            forall|u: usize|
                u != t && u < old(self).machine().threads@.len() ==> final(self).job(u)
                    == old(self).job(u),
            old(self).machine().others_same(&final(self).machine(), t),
            final(self).machine().heap == old(self).machine().heap,
            final(self).machine().global == old(self).machine().global,
            final(self).machine().phase(t) == Phase::Pinned,
    {
        proof {
            assert(self.job_ok(t as int));
            if self.chain@.len() > 0 {
                assert(self.ebr.heap.is_live(self.chain@[0]));
                self.ebr.heap.lemma_null_is_free();
            }
        }
        let h: usize = self.head;
        let found: bool = h != 0;
        if found {
            self.ebr.hold(t, h);
            self.jobs[t] = Job::Read(h);
        } else {
            self.jobs[t] = Job::Idle;
        }
        proof {
            assert forall|b: usize| #[trigger] old(self).published(b) implies self.published(b)
                && self.nodes.at(b).next == old(self).nodes.at(b).next by {}
            assert forall|b: usize|
                (#[trigger] old(self).own(b)) && unpublished(old(self).jobs@[t as int]) != Some(
                    b,
                ) implies self.own(b) && self.nodes.at(b).next == old(self).nodes.at(b).next by {}
            assert forall|u: int| 0 <= u < self.jobs@.len() implies #[trigger] self.job_ok(u) by {
                if u != t {
                    old(self).lemma_other_job_ok(self, t, u);
                } else if found {
                    let th = self.ebr.threads@[u];
                    let before = old(self).ebr.threads@[u].holding@;
                    assert(self.chain@[0] == h);
                    assert(self.chain@.contains(h));
                    assert forall|i: int| 0 <= i < th.holding@.len() implies self.published(
                        #[trigger] th.holding@[i],
                    ) by {
                        if i < before.len() {
                            assert(old(self).published(before[i]));
                        }
                    }
                    assert(th.holding@[before.len() as int] == h);
                } else {
                    old(self).lemma_holding_ok(self, t);
                }
            }
            old(self).lemma_unpublished_apart(self, t);
            old(self).lemma_known_kept(self, t);
            assert(self@ =~= old(self)@);
        }
        found
    }

    /// Third step of a pop: thread `t` reads the link out of the node that
    /// it read the head to be. The node may have left the stack since, but
    /// it is still allocated, since the thread holds it.
    pub fn pop_read_next(&mut self, t: usize)
        requires
            old(self).ok(),
            t < old(self).machine().threads@.len(),
            old(self).job(t) matches Job::Read(_),
        ensures
            final(self).ok(),
            old(self).job(t) matches Job::Read(h) && final(self).job(t) matches Job::Next(g, _)
                && g == h && old(self).machine().heap.allocated(h),
            final(self)@ == old(self)@,
            final(self).nodes() == old(self).nodes(),
            forall|u: usize|
                u != t && u < old(self).machine().threads@.len() ==> final(self).job(u)
                    == old(self).job(u),
            final(self).machine() == old(self).machine(),
    {
        let h: usize = match self.jobs[t] {
            Job::Read(h) => h,
            _ => 0,
        };
        proof {
            assert(self.job_ok(t as int));
            let held = self.ebr.threads@[t as int].holding@;
            let i = choose|i: int| 0 <= i < held.len() && held[i] == h;
            assert(self.published(held[i]));
            self.ebr.lemma_held_is_allocated(t, h);
        }
        let n: usize = match Shared::from_raw(h) {
            Some(p) => self.nodes.get(p, &self.ebr.heap).next,
            None => 0,
        };
        self.jobs[t] = Job::Next(h, n);
        proof {
            assert forall|u: int| 0 <= u < self.jobs@.len() implies #[trigger] self.job_ok(u) by {
                if u != t {
                    old(self).lemma_other_job_ok(self, t, u);
                } else {
                    old(self).lemma_holding_ok(self, t);
                }
            }
            old(self).lemma_unpublished_apart(self, t);
            old(self).lemma_known_kept(self, t);
            assert(self@ =~= old(self)@);
        }
    }

    /// Last step of a pop: thread `t` swings the head to the node below
    /// the one that it read, if the head is still that node. If so, the
    /// pop has taken effect: the node is off the stack and retired, and
    /// its item is returned. If not, the pop starts over with reading the
    /// head, and nothing is returned.
    ///
    /// Where the head is still the address that was read, it is still the
    /// node that was read, with the link that was read: the thread holds
    /// the node, so its cell was not freed and the address stands for no
    /// other node.
    pub fn pop_cas(&mut self, t: usize) -> (item: Option<T>)
        requires
            old(self).ok(),
            t < old(self).machine().threads@.len(),
            old(self).job(t) matches Job::Next(_, _),
        ensures
            final(self).ok(),
            old(self).machine().accounted() ==> final(self).machine().accounted(),
            old(self).job(t) matches Job::Next(h, n) && (item is Some) == (old(self).top() == h)
                && final(self).job(t) == (if item is Some {
                Job::Idle
            } else {
                Job::Pop
            }) && (item is Some ==> old(self)@.len() > 0 && old(self).nodes()[0] == h
                && final(self).top() == n && final(self).machine().heap.is_retired(h)),
            item is Some ==> item == taken(old(self)@, Op::Pop),
            final(self)@ == (if item is Some {
                lifo_after(old(self)@, Op::Pop)
            } else {
                old(self)@
            }),
            final(self).nodes() == (if item is Some {
                old(self).nodes().skip(1)
            } else {
                old(self).nodes()
            }),
            forall|u: usize|
                u != t && u < old(self).machine().threads@.len() ==> final(self).job(u)
                    == old(self).job(u),
            old(self).machine().others_same(&final(self).machine(), t),
            final(self).machine().global == old(self).machine().global,
            final(self).machine().phase(t) == Phase::Pinned,
            final(self).machine().threads@[t as int].holding
                == old(self).machine().threads@[t as int].holding,
    {
        proof {
            assert(self.job_ok(t as int));
            if self.chain@.len() > 0 {
                assert(self.ebr.heap.is_live(self.chain@[0]));
                assert(self.nodes.at(self.chain@[0]).next == successor(self.chain@, 0));
            }
        }
        let (h, n) = match self.jobs[t] {
            Job::Next(h, n) => (h, n),
            _ => (0, 0),
        };
        if self.head == h {
            let ghost above = self.chain@;
            self.head = n;
            self.ebr.unlink(t, h);
            let item = self.take_item(h);
            self.jobs[t] = Job::Idle;
            proof {
                self.chain = Ghost(above.skip(1));
                let chain = self.chain@;
                assert(above[0] == h);
                assert forall|i: int| 0 <= i < chain.len() implies (#[trigger] chain[i])
                    == above[i + 1] && chain[i] != h by {}
                assert forall|i: int| 0 <= i < chain.len() implies self.ebr.heap.is_live(
                    #[trigger] chain[i],
                ) && self.ebr.heap.kind(chain[i]) == STEP_KIND && self.nodes.has(chain[i]) by {
                    assert(chain[i] == above[i + 1]);
                    assert(old(self).ebr.heap.is_live(above[i + 1]));
                    assert(old(self).ebr.heap.same_cell(&self.ebr.heap, chain[i]));
                    assert(old(self).nodes.same_at(&self.nodes, chain[i]));
                }
                assert forall|i: int| 0 <= i < chain.len() implies (#[trigger] self.nodes.at(
                    chain[i],
                )).next == successor(chain, i) && self.nodes.at(chain[i]).data is Some by {
                    assert(chain[i] == above[i + 1]);
                    assert(old(self).nodes.has(above[i + 1]));
                    assert(old(self).nodes.at(above[i + 1]).next == successor(above, i + 1));
                    assert(old(self).nodes.same_at(&self.nodes, chain[i]));
                }
                assert forall|b: usize| #[trigger] old(self).published(b) implies self.published(
                    b,
                ) && self.nodes.at(b).next == old(self).nodes.at(b).next by {
                    if b != h {
                        assert(old(self).ebr.heap.same_cell(&self.ebr.heap, b));
                        assert(old(self).nodes.same_at(&self.nodes, b));
                        if above.contains(b) {
                            let i = choose|i: int| 0 <= i < above.len() && above[i] == b;
                            assert(chain[i - 1] == b);
                        }
                    }
                }
                assert forall|b: usize|
                    (#[trigger] old(self).own(b)) && unpublished(old(self).jobs@[t as int])
                        != Some(b) implies self.own(b) && self.nodes.at(b).next
                            == old(self).nodes.at(b).next by {
                    assert(above.contains(h));
                    assert(b != h);
                    assert(old(self).ebr.heap.same_cell(&self.ebr.heap, b));
                    assert(old(self).nodes.same_at(&self.nodes, b));
                    if chain.contains(b) {
                        let i = choose|i: int| 0 <= i < chain.len() && chain[i] == b;
                        assert(above.contains(above[i + 1]));
                    }
                }
                assert forall|u: int| 0 <= u < self.jobs@.len() implies #[trigger] self.job_ok(
                    u,
                ) by {
                    if u != t {
                        old(self).lemma_other_job_ok(self, t, u);
                    } else {
                        old(self).lemma_holding_ok(self, t);
                    }
                }
                old(self).lemma_unpublished_apart(self, t);
                assert forall|b: usize| #[trigger] self.ebr.heap.is_live(b)
                    implies old(self).ebr.heap.is_live(b) by {
                    if b != h {
                        assert(old(self).ebr.heap.same_cell(&self.ebr.heap, b));
                    }
                }
                assert forall|b: usize| above.contains(b) && #[trigger] self.ebr.heap.is_live(
                    b,
                ) implies chain.contains(b) by {
                    let i = choose|i: int| 0 <= i < above.len() && above[i] == b;
                    assert(i > 0);
                    assert(chain[i - 1] == b);
                }
                old(self).lemma_known_kept(self, t);
                assert forall|i: int| 0 <= i < self@.len() implies self@[i] == old(self)@[i
                    + 1] by {
                    assert(chain[i] == above[i + 1]);
                    assert(old(self).nodes.has(above[i + 1]));
                    assert(old(self).nodes.same_at(&self.nodes, chain[i]));
                }
                assert(self@ =~= old(self)@.skip(1));
                assert(self.nodes() =~= old(self).nodes().skip(1));
            }
            item
        } else {
            self.jobs[t] = Job::Pop;
            proof {
                assert forall|u: int| 0 <= u < self.jobs@.len() implies #[trigger] self.job_ok(
                    u,
                ) by {
                    if u != t {
                        old(self).lemma_other_job_ok(self, t, u);
                    } else {
                        old(self).lemma_holding_ok(self, t);
                    }
                }
                old(self).lemma_unpublished_apart(self, t);
                old(self).lemma_known_kept(self, t);
                assert(self@ =~= old(self)@);
            }
            None
        }
    }
}

} // verus!
