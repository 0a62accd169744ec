//! The Michael-Scott queue: a linked list of nodes with a pointer to the
//! first node, which holds no item, and a pointer to the last node or to
//! one before it. A push links a node behind the last and then swings the
//! tail pointer; whoever finds the tail pointer behind helps it on.

use crate::mem::epoch::global::EpochState;
use crate::mem::epoch::heap::Heap;
use crate::mem::epoch::participants::successor;
use crate::sync::order::{fifo_after, taken, Op};
use crate::mem::epoch::{pin, Arena, Atomic, MemOrder, Owned, Shared};
use crate::mem::epoch::heap::Holder;
use vstd::prelude::*;

verus! {

/// The kind of the heap cells that hold nodes of a Michael-Scott queue.
pub const MSQ_KIND: usize = 2;

/// A node of the queue. The first node of the queue holds no item: it is
/// new, or its item was popped.
pub struct Node<T> {
    data: Option<T>,
    next: Atomic,
}

/// The addresses in `chain` name distinct live cells of the queue's kind
/// whose nodes are in `nodes`, each linked to the next and the last to
/// nothing, and every one but the first holding an item.
spec fn linked<T>(nodes: &Arena<Node<T>>, heap: &Heap, chain: Seq<usize>) -> bool {
    &&& forall|i: int, j: int| 0 <= i < j < chain.len() ==> chain[i] != chain[j]
    &&& forall|i: int|
        0 <= i < chain.len() ==> heap.is_live(#[trigger] chain[i]) && heap.kind(chain[i])
            == MSQ_KIND && nodes.has(chain[i])
    &&& forall|i: int|
        0 <= i < chain.len() ==> (#[trigger] nodes.at(chain[i])).next@ == successor(chain, i) && (i
            >= 1 ==> nodes.at(chain[i]).data is Some)
}

/// What one node of a linked chain is.
proof fn lemma_link<T>(nodes: &Arena<Node<T>>, heap: &Heap, chain: Seq<usize>, i: int)
    requires
        linked(nodes, heap, chain),
        0 <= i < chain.len(),
    ensures
        heap.is_live(chain[i]),
        heap.kind(chain[i]) == MSQ_KIND,
        nodes.has(chain[i]),
        nodes.readable(heap, chain[i]) || nodes.kind() != MSQ_KIND,
        chain[i] != 0,
        nodes.at(chain[i]).next@ == successor(chain, i),
        i >= 1 ==> nodes.at(chain[i]).data is Some,
        forall|j: int| 0 <= j < chain.len() && j != i ==> chain[j] != chain[i],
{
    heap.lemma_null_is_free();
    assert forall|j: int| 0 <= j < chain.len() && j != i implies chain[j] != chain[i] by {
        if j < i {
            assert(chain[j] != chain[i]);
        } else {
            assert(chain[i] != chain[j]);
        }
    }
}

/// A linked chain stays linked when its nodes and their cells stay as
/// they are.
proof fn lemma_linked_framed<T>(
    n0: &Arena<Node<T>>,
    n1: &Arena<Node<T>>,
    h0: &Heap,
    h1: &Heap,
    chain: Seq<usize>,
)
    requires
        linked(n0, h0, chain),
        forall|i: int| 0 <= i < chain.len() ==> n0.same_at(n1, #[trigger] chain[i]),
        forall|i: int|
            0 <= i < chain.len() ==> h1.is_live(#[trigger] chain[i]) && h1.kind(chain[i])
                == MSQ_KIND,
    ensures
        linked(n1, h1, chain),
{
    assert forall|i: int| 0 <= i < chain.len() implies (#[trigger] n1.at(chain[i])).next@
        == successor(chain, i) && (i >= 1 ==> n1.at(chain[i]).data is Some) by {
        lemma_link(n0, h0, chain, i);
        assert(n0.same_at(n1, chain[i]));
    }
    assert forall|i: int| 0 <= i < chain.len() implies h1.is_live(#[trigger] chain[i]) && h1.kind(
        chain[i],
    ) == MSQ_KIND && n1.has(chain[i]) by {
        lemma_link(n0, h0, chain, i);
        assert(n0.same_at(n1, chain[i]));
    }
}

/// Linking a node that holds an item behind the last node of a linked
/// chain makes a linked chain.
proof fn lemma_linked_pushed<T>(
    n0: &Arena<Node<T>>,
    n1: &Arena<Node<T>>,
    heap: &Heap,
    chain: Seq<usize>,
    a: usize,
)
    requires
        linked(n0, heap, chain),
        chain.len() >= 1,
        forall|i: int| 0 <= i < chain.len() ==> chain[i] != a,
        heap.is_live(a),
        heap.kind(a) == MSQ_KIND,
        n1.has(a),
        n1.at(a).next@ == 0,
        n1.at(a).data is Some,
        n1.has(chain.last()),
        n1.at(chain.last()).next@ == a,
        n1.at(chain.last()).data == n0.at(chain.last()).data,
        forall|i: int| 0 <= i < chain.len() - 1 ==> n0.same_at(n1, #[trigger] chain[i]),
    ensures
        linked(n1, heap, chain.push(a)),
{
    let more = chain.push(a);
    let last = chain.len() - 1;
    assert forall|i: int| 0 <= i < more.len() implies heap.is_live(#[trigger] more[i])
        && heap.kind(more[i]) == MSQ_KIND && n1.has(more[i]) by {
        if i < last {
            lemma_link(n0, heap, chain, i);
            assert(n0.same_at(n1, chain[i]));
        } else if i == last {
            lemma_link(n0, heap, chain, i);
        }
    }
    assert forall|i: int| 0 <= i < more.len() implies (#[trigger] n1.at(more[i])).next@
        == successor(more, i) && (i >= 1 ==> n1.at(more[i]).data is Some) by {
        if i < last {
            lemma_link(n0, heap, chain, i);
            assert(n0.same_at(n1, chain[i]));
        } else if i == last {
            lemma_link(n0, heap, chain, i);
        }
    }
    assert forall|i: int, j: int| 0 <= i < j < more.len() implies more[i] != more[j] by {
        if j < chain.len() {
            assert(chain[i] != chain[j]);
        }
    }
}

/// What follows the first node of a linked chain is a linked chain, whether
/// or not its first node still holds its item.
proof fn lemma_linked_rest<T>(
    n0: &Arena<Node<T>>,
    n1: &Arena<Node<T>>,
    h0: &Heap,
    h1: &Heap,
    chain: Seq<usize>,
)
    requires
        linked(n0, h0, chain),
        chain.len() >= 2,
        n1.has(chain[1]),
        n1.at(chain[1]).next == n0.at(chain[1]).next,
        forall|i: int| 2 <= i < chain.len() ==> n0.same_at(n1, #[trigger] chain[i]),
        forall|i: int|
            1 <= i < chain.len() ==> h1.is_live(#[trigger] chain[i]) && h1.kind(chain[i])
                == MSQ_KIND,
    ensures
        linked(n1, h1, chain.subrange(1, chain.len() as int)),
{
    let rest = chain.subrange(1, chain.len() as int);
    assert forall|i: int| 0 <= i < rest.len() implies h1.is_live(#[trigger] rest[i]) && h1.kind(
        rest[i],
    ) == MSQ_KIND && n1.has(rest[i]) by {
        assert(rest[i] == chain[i + 1]);
        lemma_link(n0, h0, chain, i + 1);
        if i > 0 {
            assert(n0.same_at(n1, chain[i + 1]));
        }
    }
    assert forall|i: int| 0 <= i < rest.len() implies (#[trigger] n1.at(rest[i])).next@
        == successor(rest, i) && (i >= 1 ==> n1.at(rest[i]).data is Some) by {
        assert(rest[i] == chain[i + 1]);
        lemma_link(n0, h0, chain, i + 1);
        if i > 0 {
            assert(n0.same_at(n1, chain[i + 1]));
        }
        if i + 1 < rest.len() {
            assert(rest[i + 1] == chain[i + 2]);
        }
    }
    assert forall|i: int, j: int| 0 <= i < j < rest.len() implies rest[i] != rest[j] by {
        assert(chain[i + 1] != chain[j + 1]);
    }
}

/// A first-in, first-out queue.
pub struct MsQueue<T> {
    head: Atomic,
    tail: Atomic,
    nodes: Arena<Node<T>>,
    chain: Ghost<Seq<usize>>,
    tail_at: Ghost<int>,
}

impl<T> MsQueue<T> {
    /// The addresses of the nodes of the queue, from the head on. The
    /// first holds no item.
    pub closed spec fn nodes(&self) -> Seq<usize> {
        self.chain@
    }

    /// The items in the queue, oldest first.
    pub closed spec fn view(&self) -> Seq<T> {
        Seq::new((self.chain@.len() - 1) as nat, |i: int| self.nodes.at(self.chain@[i + 1]).data->0)
    }

    /// How many nodes the tail pointer is behind the last node.
    pub closed spec fn tail_lag(&self) -> int {
        self.chain@.len() - 1 - self.tail_at@
    }

    /// The queue is in order in `heap`: its nodes are distinct live cells
    /// of the queue's kind, each linked to the next; the head points to
    /// the first and the tail to one of them; every node but the first
    /// holds an item.
    pub closed spec fn wf(&self, heap: &Heap) -> bool {
        &&& self.nodes.kind() == MSQ_KIND
        &&& self.chain@.len() >= 1
        &&& self.head@ == self.chain@[0]
        &&& 0 <= self.tail_at@ < self.chain@.len()
        &&& self.tail@ == self.chain@[self.tail_at@]
        &&& linked(&self.nodes, heap, self.chain@)
    }

    /// A queue in order stays in order when the heap changes, as long as
    /// its nodes stay live cells of its kind.
    pub proof fn lemma_wf_framed(&self, h0: &Heap, h1: &Heap)
        requires
            self.wf(h0),
            forall|i: int|
                0 <= i < self.nodes().len() ==> h1.is_live(#[trigger] self.nodes()[i]) && h1.kind(
                    self.nodes()[i],
                ) == h0.kind(self.nodes()[i]),
        ensures
            self.wf(h1),
    {
        assert forall|i: int| 0 <= i < self.chain@.len() implies h1.is_live(
            #[trigger] self.chain@[i],
        ) && h1.kind(self.chain@[i]) == MSQ_KIND by {
            lemma_link(&self.nodes, h0, self.chain@, i);
            assert(h1.is_live(self.nodes()[i]));
        }
        lemma_linked_framed(&self.nodes, &self.nodes, h0, h1, self.chain@);
    }

    /// The nodes of a queue in order are live cells that hold no
    /// participant record; there is one more of them than items.
    pub proof fn lemma_nodes_live(&self, heap: &Heap)
        requires
            self.wf(heap),
        ensures
            self.nodes().len() == self@.len() + 1,
            0 <= self.tail_lag() < self.nodes().len(),
            forall|i: int|
                0 <= i < self.nodes().len() ==> heap.is_live(#[trigger] self.nodes()[i])
                    && heap.kind(self.nodes()[i]) == MSQ_KIND,
    {
    }

    /// A step of the epoch scheme keeps a queue in order.
    pub proof fn lemma_wf_step(&self, s0: &EpochState, s1: &EpochState)
        requires
            self.wf(&s0.heap),
            s0.step(s1),
        ensures
            self.wf(&s1.heap),
    {
        assert forall|i: int| 0 <= i < self.nodes().len() implies s1.heap.is_live(
            #[trigger] self.nodes()[i],
        ) && s1.heap.kind(self.nodes()[i]) == s0.heap.kind(self.nodes()[i]) by {
            lemma_link(&self.nodes, &s0.heap, self.chain@, i);
            s0.lemma_step_keeps_live(s1, self.nodes()[i]);
        }
        self.lemma_wf_framed(&s0.heap, &s1.heap);
    }

    /// An empty queue: one node that holds no item.
    pub fn new(state: &mut EpochState, me: usize) -> (q: MsQueue<T>)
        requires
            old(state).wf(),
            old(state).enrolled(me),
            old(state).in_critical(me) < usize::MAX,
        ensures
            q.wf(&final(state).heap),
            final(state).wf(),
            q@ == Seq::<T>::empty(),
            q.tail_lag() == 0,
            final(state).enrolled(me),
            final(state).in_critical(me) == old(state).in_critical(me),
            old(state).keeps_live_but(final(state), Seq::empty()),
            forall|i: int|
                0 <= i < q.nodes().len() ==> !old(state).heap.is_live(#[trigger] q.nodes()[i]),
    {
        let mut q = MsQueue {
            head: Atomic::null(),
            tail: Atomic::null(),
            nodes: Arena::new(MSQ_KIND),
            chain: Ghost(Seq::empty()),
            tail_at: Ghost(0),
        };
        let sentinel = Owned::new(Node { data: None, next: Atomic::null() });
        let guard = pin(state, me);
        let ghost pinned = *state;
        let sentinel = q.head.store_and_ref(
            sentinel,
            MemOrder::Relaxed,
            &guard,
            &mut q.nodes,
            &mut state.heap,
        );
        q.tail.store_shared(Some(sentinel), MemOrder::Relaxed);
        q.chain = Ghost(Seq::empty().push(sentinel.addr()));
        proof {
            pinned.lemma_allocated(state, sentinel.addr());
            assert(q@ =~= Seq::<T>::empty());
            pinned.lemma_record_inv(me);
            assert(state.participants.listed(me));
        }
        guard.release(state);
        proof {
            old(state).lemma_step_keeps(&pinned, Seq::empty());
            if !old(state).keeps_live_but(state, Seq::empty()) {
                let a = choose|a: usize|
                    old(state).heap.is_live(a) && old(state).heap.kind(a)
                        != crate::mem::epoch::heap::RECORD_KIND && !Seq::<usize>::empty().contains(
                        a,
                    ) && !((#[trigger] state.heap.is_live(a)) && state.heap.kind(a)
                        == old(state).heap.kind(a));
                assert(pinned.heap.is_live(a));
                assert(pinned.heap.same_cell(&state.heap, a));
            }
            if old(state).heap.is_live(sentinel.addr()) {
                if old(state).heap.same_state(&pinned.heap, sentinel.addr()) {
                } else {
                    assert(pinned.heap.allocated(sentinel.addr()));
                }
            }
        }
        q
    }

    /// Sets the link out of the node at `a` to `new` if it holds `current`;
    /// says whether it did.
    fn cas_next(&mut self, a: usize, current: Option<Shared>, new: Option<Shared>) -> (done: bool)
        requires
            old(self).nodes.has(a),
        ensures
            done == (old(self).nodes.at(a).next@ == crate::mem::epoch::opt_addr(current)),
            final(self).nodes.has(a),
            final(self).nodes.at(a).data == old(self).nodes.at(a).data,
            final(self).nodes.at(a).next@ == (if done {
                crate::mem::epoch::opt_addr(new)
            } else {
                old(self).nodes.at(a).next@
            }),
            forall|b: usize| b != a ==> old(self).nodes.same_at(&final(self).nodes, b),
            final(self).nodes.kind() == old(self).nodes.kind(),
            final(self).head == old(self).head,
            final(self).tail == old(self).tail,
            final(self).chain == old(self).chain,
            final(self).tail_at == old(self).tail_at,
    {
        let mut node = self.nodes.take(a);
        let ghost taken = self.nodes;
        let done = node.next.cas_shared(current, new, MemOrder::Release);
        self.nodes.put(a, node);
        proof {
            assert forall|b: usize| b != a implies old(self).nodes.same_at(&self.nodes, b) by {
                assert(old(self).nodes.same_at(&taken, b));
                assert(taken.same_at(&self.nodes, b));
            }
        }
        done
    }

    /// Takes the item out of the node at `a`.
    fn take_data(&mut self, a: usize) -> (t: Option<T>)
        requires
            old(self).nodes.has(a),
        ensures
            t == old(self).nodes.at(a).data,
            final(self).nodes.has(a),
            final(self).nodes.at(a).data is None,
            final(self).nodes.at(a).next == old(self).nodes.at(a).next,
            forall|b: usize| b != a ==> old(self).nodes.same_at(&final(self).nodes, b),
            final(self).nodes.kind() == old(self).nodes.kind(),
            final(self).head == old(self).head,
            final(self).tail == old(self).tail,
            final(self).chain == old(self).chain,
            final(self).tail_at == old(self).tail_at,
    {
        let mut node = self.nodes.take(a);
        let ghost taken = self.nodes;
        let t = node.data.take();
        self.nodes.put(a, node);
        proof {
            assert forall|b: usize| b != a implies old(self).nodes.same_at(&self.nodes, b) by {
                assert(old(self).nodes.same_at(&taken, b));
                assert(taken.same_at(&self.nodes, b));
            }
        }
        t
    }

    /// Links a node with `t` behind the last node and, if `swing` is set,
    /// swings the tail pointer to it.
    fn push_with(&mut self, t: T, state: &mut EpochState, me: usize, swing: bool)
        requires
            old(self).wf(&old(state).heap),
            old(state).wf(),
            old(state).enrolled(me),
            old(state).in_critical(me) < usize::MAX,
        ensures
            final(self).wf(&final(state).heap),
            final(state).wf(),
            final(self)@ == old(self)@.push(t),
            final(self)@ == fifo_after(old(self)@, Op::Push(t)),
            final(self).tail_lag() == (if swing {
                0int
            } else {
                1int
            }),
            final(self).nodes().len() == old(self).nodes().len() + 1,
            final(self).nodes().drop_last() == old(self).nodes(),
            final(state).enrolled(me),
            final(state).in_critical(me) == old(state).in_critical(me),
            final(state).era() - old(state).era() == (if old(state).record(me).try_gc
                && old(state).pin_advances(me) {
                1int
            } else {
                0int
            }),
            // besides the new node, the operation changes no cell but as a
            // step does: what others guard stays guarded
            old(state).worked(final(state), seq![final(self).nodes().last()], Seq::empty()),
            old(state).list_step(final(state), me),
            old(state).keeps_live_but(final(state), old(self).nodes()),
    {
        let guard = pin(state, me);
        let ghost pinned = *state;
        let ghost chain = self.chain@;
        proof {
            old(self).lemma_wf_step(old(state), &pinned);
            old(state).lemma_step_keeps(&pinned, chain);
            pinned.lemma_record_inv(me);
        }
        let fresh = self.nodes.publish(
            Owned::new(Node { data: Some(t), next: Atomic::null() }),
            &mut state.heap,
        );
        let a: usize = fresh.as_raw();
        let ghost ready = *state;
        proof {
            pinned.lemma_allocated(state, a);
            assert forall|i: int| 0 <= i < chain.len() implies old(self).nodes.same_at(
                &self.nodes,
                #[trigger] chain[i],
            ) && state.heap.is_live(chain[i]) && state.heap.kind(chain[i]) == MSQ_KIND
                && chain[i] != a by {
                lemma_link(&old(self).nodes, &pinned.heap, chain, i);
                assert(pinned.heap.same_cell(&state.heap, chain[i]));
            }
            lemma_linked_framed(&old(self).nodes, &self.nodes, &pinned.heap, &state.heap, chain);
        }
        loop
            invariant_except_break
                self.tail_at@ < chain.len(),
                self.tail@ == chain[self.tail_at@],
                self.chain@ == chain,
                linked(&self.nodes, &ready.heap, chain),
                self.nodes.has(a),
                self.nodes.at(a).next@ == 0,
                self.nodes.at(a).data == Some(t),
                forall|i: int| 0 <= i < chain.len() ==> chain[i] != a,
                forall|i: int|
                    1 <= i < chain.len() ==> self.nodes.at(#[trigger] chain[i]).data
                        == old(self).nodes.at(chain[i]).data,
            invariant
                *state == ready,
                ready.heap.is_live(a),
                ready.heap.kind(a) == MSQ_KIND,
                chain == old(self).chain@,
                chain.len() >= 1,
                self.nodes.kind() == MSQ_KIND,
                self.head@ == chain[0],
                0 <= self.tail_at@ <= chain.len(),
                fresh.addr() == a,
            ensures
                self.wf(&ready.heap),
                self.chain@ == chain.push(a),
                self.tail_at@ == (if swing {
                    chain.len() as int
                } else {
                    chain.len() - 1
                }),
                self.nodes.at(a).data == Some(t),
                forall|i: int|
                    1 <= i < chain.len() ==> self.nodes.at(#[trigger] chain[i]).data
                        == old(self).nodes.at(chain[i]).data,
            decreases chain.len() - self.tail_at@,
        {
            let ghost at = self.tail_at@;
            proof {
                lemma_link(&self.nodes, &ready.heap, chain, at);
            }
            let tail = self.tail.load(MemOrder::Acquire, &guard).unwrap();
            let next = self.nodes.get(tail, &state.heap).next.load(MemOrder::Acquire, &guard);
            match next {
                Some(next) => {
                    // the tail pointer is behind: help it on
                    self.tail.cas_shared(Some(tail), Some(next), MemOrder::Release);
                    proof {
                        self.tail_at = Ghost(at + 1);
                    }
                },
                None => {
                    let ghost before = *self;
                    proof {
                        if at + 1 < chain.len() {
                            lemma_link(&self.nodes, &ready.heap, chain, at + 1);
                        }
                        assert(at == chain.len() - 1);
                    }
                    if self.cas_next(tail.as_raw(), None, Some(fresh)) {
                        if swing {
                            self.tail.cas_shared(Some(tail), Some(fresh), MemOrder::Release);
                        }
                        proof {
                            self.chain = Ghost(chain.push(a));
                            if swing {
                                self.tail_at = Ghost(chain.len() as int);
                            }
                            assert forall|i: int| 0 <= i < chain.len() - 1 implies
                                before.nodes.same_at(&self.nodes, #[trigger] chain[i]) by {
                                assert(chain[i] != chain[chain.len() - 1]);
                            }
                            assert(before.nodes.same_at(&self.nodes, a));
                            lemma_linked_pushed(&before.nodes, &self.nodes, &ready.heap, chain, a);
                            assert forall|i: int| 1 <= i < chain.len() implies self.nodes.at(
                                #[trigger] chain[i],
                            ).data == old(self).nodes.at(chain[i]).data by {
                                if i < chain.len() - 1 {
                                    assert(before.nodes.same_at(&self.nodes, chain[i]));
                                }
                            }
                        }
                        break ;
                    }
                },
            }
        }
        proof {
            assert forall|i: int| 0 <= i < self@.len() implies self@[i] == old(self)@.push(t)[i]
                by {
                if i < chain.len() - 1 {
                    assert(self.chain@[i + 1] == chain[i + 1]);
                } else {
                    assert(self.chain@[i + 1] == a);
                }
            }
            assert(self@ =~= old(self)@.push(t));
            assert(self.nodes().drop_last() =~= old(self).nodes());
        }
        guard.release(state);
        proof {
            assert forall|c: usize|
                old(state).heap.is_live(c) && old(state).heap.kind(c)
                    != crate::mem::epoch::heap::RECORD_KIND && !chain.contains(c) implies (
            #[trigger] state.heap.is_live(c)) && state.heap.kind(c) == old(state).heap.kind(c) by {
                assert(pinned.heap.is_live(c));
                assert(pinned.heap.same_cell(&ready.heap, c));
            }
            assert(chain == old(self).nodes());
            assert(old(state).keeps_live_but(state, chain));
            let born = seq![a];
            assert(born[0] == a);
            assert(self.nodes().last() == a);
            assert forall|b: usize| !born.contains(b) implies #[trigger] pinned.heap.same_cell(
                &state.heap,
                b,
            ) by {
                if b == a {
                    assert(born[0] == b);
                }
                assert(pinned.heap.same_cell(&ready.heap, b));
            }
            old(state).lemma_worked(&pinned, state, me, born, Seq::empty());
        }
    }

    /// Adds `t` at the back of the queue, for the participant `me`.
    pub fn push(&mut self, t: T, state: &mut EpochState, me: usize)
        requires
            old(self).wf(&old(state).heap),
            old(state).wf(),
            old(state).enrolled(me),
            old(state).in_critical(me) < usize::MAX,
        ensures
            final(self).wf(&final(state).heap),
            final(state).wf(),
            final(self)@ == old(self)@.push(t),
            final(self)@ == fifo_after(old(self)@, Op::Push(t)),
            final(self).tail_lag() == 0,
            final(self).nodes().len() == old(self).nodes().len() + 1,
            final(self).nodes().drop_last() == old(self).nodes(),
            final(state).enrolled(me),
            final(state).in_critical(me) == old(state).in_critical(me),
            final(state).era() - old(state).era() == (if old(state).record(me).try_gc
                && old(state).pin_advances(me) {
                1int
            } else {
                0int
            }),
            // besides the new node, the operation changes no cell but as a
            // step does: what others guard stays guarded
            old(state).worked(final(state), seq![final(self).nodes().last()], Seq::empty()),
            old(state).list_step(final(state), me),
            old(state).keeps_live_but(final(state), old(self).nodes()),
    {
        self.push_with(t, state, me, true)
    }

    /// Adds `t` at the back of the queue as a thread does that is stopped
    /// between the two steps of a push: the node is linked, and the tail
    /// pointer is left one node behind for the next operation to help on.
    pub fn push_stalled(&mut self, t: T, state: &mut EpochState, me: usize)
        requires
            old(self).wf(&old(state).heap),
            old(state).wf(),
            old(state).enrolled(me),
            old(state).in_critical(me) < usize::MAX,
        ensures
            final(self).wf(&final(state).heap),
            final(state).wf(),
            final(self)@ == old(self)@.push(t),
            final(self)@ == fifo_after(old(self)@, Op::Push(t)),
            final(self).tail_lag() == 1,
            final(self).nodes().len() == old(self).nodes().len() + 1,
            final(self).nodes().drop_last() == old(self).nodes(),
            final(state).enrolled(me),
            final(state).in_critical(me) == old(state).in_critical(me),
            final(state).era() - old(state).era() == (if old(state).record(me).try_gc
                && old(state).pin_advances(me) {
                1int
            } else {
                0int
            }),
            // besides the new node, the operation changes no cell but as a
            // step does: what others guard stays guarded
            old(state).worked(final(state), seq![final(self).nodes().last()], Seq::empty()),
            old(state).list_step(final(state), me),
            old(state).keeps_live_but(final(state), old(self).nodes()),
    {
        self.push_with(t, state, me, false)
    }

    /// Takes the oldest item out of the queue, for the participant `me`.
    /// Returns `None` if the queue is empty. The node that was first is
    /// handed to `me` as garbage; the node of the item becomes the first.
    pub fn try_pop(&mut self, state: &mut EpochState, me: usize) -> (r: Option<T>)
        requires
            old(self).wf(&old(state).heap),
            old(state).wf(),
            old(state).enrolled(me),
            old(state).in_critical(me) < usize::MAX,
        ensures
            final(self).wf(&final(state).heap),
            final(state).wf(),
            r == taken(old(self)@, Op::Pop),
            final(self)@ == fifo_after(old(self)@, Op::Pop),
            r is None <==> old(self)@.len() == 0,
            r is None ==> final(self)@ == old(self)@ && final(self).nodes() == old(self).nodes(),
            r matches Some(v) ==> v == old(self)@[0] && final(self)@ == old(self)@.subrange(
                1,
                old(self)@.len() as int,
            ) && final(self).nodes() == old(self).nodes().subrange(
                1,
                old(self).nodes().len() as int,
            ) && final(state).heap.is_retired(old(self).nodes()[0]) && final(state).heap.stamp(
                old(self).nodes()[0],
            ) == final(state).era(),
            final(self).tail_lag() <= old(self).tail_lag(),
            final(state).enrolled(me),
            final(state).in_critical(me) == old(state).in_critical(me),
            final(state).era() - old(state).era() == (if old(state).record(me).try_gc
                && old(state).pin_advances(me) {
                1int
            } else {
                0int
            }),
            // besides the node that is unlinked, the operation changes no
            // cell but as a step does
            old(state).worked(final(state), Seq::empty(), (if r is Some {
                seq![old(self).nodes()[0]]
            } else {
                Seq::empty()
            })),
            old(state).list_step(final(state), me),
            // the node taken off is in the caller's hands: it is the last
            // of the caller's newest bag
            r is Some ==> final(state).heap.holder(old(self).nodes()[0]) == Holder::Local(me)
                && final(state).record(me).garbage.new@.len() > 0 && final(state).record(
                me,
            ).garbage.new@.last() == old(self).nodes()[0] && final(state).record(
                me,
            ).garbage.holds(old(self).nodes()[0]),
            old(state).keeps_live_but(final(state), old(self).nodes()),
    {
        let guard = pin(state, me);
        let ghost pinned = *state;
        let ghost chain = self.chain@;
        proof {
            old(self).lemma_wf_step(old(state), &pinned);
            old(state).lemma_step_keeps(&pinned, chain);
            pinned.lemma_record_inv(me);
        }
        let mut popped: Option<T> = None;
        loop
            invariant_except_break
                popped is None,
                *state == pinned,
                self.wf(&pinned.heap),
                self.chain@ == chain,
                self.nodes == old(self).nodes,
                self.tail_at@ >= old(self).tail_at@,
            invariant
                chain == old(self).chain@,
                old(self).wf(&pinned.heap),
                pinned.wf(),
                pinned.participants.listed(me),
                pinned.pinned(me),
                guard.owner() == me,
            ensures
                self.wf(&state.heap),
                state.wf(),
                state.participants.listed(me),
                state.in_critical(me) == pinned.in_critical(me),
                state.record(me).active == pinned.record(me).active,
                state.era() == pinned.era(),
                state.epoch == pinned.epoch,
                state.participants.order() == pinned.participants.order(),
                pinned.others_same(state, me),
                popped is Some ==> state.heap.kind(chain[0]) == pinned.heap.kind(chain[0]),
                popped is Some ==> state.heap.holder(chain[0]) == Holder::Local(me)
                    && state.record(me).garbage.new@ == pinned.record(me).garbage.new@.push(
                    chain[0],
                ),
                self.tail_lag() <= old(self).tail_lag(),
                popped is None <==> old(self)@.len() == 0,
                popped is None ==> self@ == old(self)@ && self.nodes() == old(self).nodes()
                    && state.heap == pinned.heap,
                popped matches Some(v) ==> v == old(self)@[0] && self@ == old(self)@.subrange(
                    1,
                    old(self)@.len() as int,
                ) && self.nodes() == old(self).nodes().subrange(
                    1,
                    old(self).nodes().len() as int,
                ) && state.heap.is_retired(chain[0]) && state.heap.stamp(chain[0]) == state.era()
                    && forall|b: usize| b != chain[0] ==> pinned.heap.same_cell(&state.heap, b),
            decreases chain.len() - self.tail_at@,
        {
            let ghost at = self.tail_at@;
            proof {
                lemma_link(&self.nodes, &pinned.heap, chain, 0);
                lemma_link(&self.nodes, &pinned.heap, chain, at);
                if chain.len() > 1 {
                    lemma_link(&self.nodes, &pinned.heap, chain, 1);
                }
            }
            let head = self.head.load(MemOrder::Acquire, &guard).unwrap();
            let next = self.nodes.get(head, &state.heap).next.load(MemOrder::Acquire, &guard);
            let tail = self.tail.load(MemOrder::Acquire, &guard).unwrap();
            if head.as_raw() == tail.as_raw() {
                match next {
                    None => {
                        // the queue is empty
                        proof {
                            assert(self@ =~= old(self)@);
                        }
                        break ;
                    },
                    Some(next) => {
                        // the tail pointer is behind: help it on
                        self.tail.cas_shared(Some(tail), Some(next), MemOrder::Release);
                        proof {
                            self.tail_at = Ghost(at + 1);
                        }
                    },
                }
            } else {
                match next {
                    Some(next) => {
                        if self.head.cas_shared(Some(head), Some(next), MemOrder::Release) {
                            guard.unlinked(state, head);
                            // the item is for the one who unlinked the node before it
                            popped = self.take_data(next.as_raw());
                            proof {
                                self.chain = Ghost(chain.subrange(1, chain.len() as int));
                                self.tail_at = Ghost(at - 1);
                                assert forall|i: int| 2 <= i < chain.len()
                                    implies old(self).nodes.same_at(&self.nodes,
                                    #[trigger] chain[i]) by {
                                    assert(chain[1] != chain[i]);
                                }
                                assert forall|i: int| 1 <= i < chain.len() implies
                                    state.heap.is_live(#[trigger] chain[i]) && state.heap.kind(
                                    chain[i],
                                ) == MSQ_KIND by {
                                    lemma_link(&old(self).nodes, &pinned.heap, chain, i);
                                    assert(chain[0] != chain[i]);
                                    assert(pinned.heap.same_cell(&state.heap, chain[i]));
                                }
                                lemma_linked_rest(
                                    &old(self).nodes,
                                    &self.nodes,
                                    &pinned.heap,
                                    &state.heap,
                                    chain,
                                );
                                assert forall|i: int| 0 <= i < self@.len() implies self@[i]
                                    == old(self)@[i + 1] by {
                                    assert(self.chain@[i + 1] == chain[i + 2]);
                                    assert(old(self).nodes.same_at(&self.nodes, chain[i + 2]));
                                }
                                assert(self@ =~= old(self)@.subrange(1, old(self)@.len() as int));
                            }
                            break ;
                        }
                    },
                    None => {
                        // a first node that is not the last is linked to the next
                        proof {
                            assert(at >= 1);
                            assert(false);
                        }
                    },
                }
            }
        }
        let ghost worked = *state;
        guard.release(state);
        proof {
            if popped is Some {
                let bag = worked.record(me).garbage.new@;
                assert(bag == pinned.record(me).garbage.new@.push(chain[0]));
                assert(bag[bag.len() - 1] == chain[0]);
                assert(state.record(me).garbage.new@ == bag);
                assert(state.record(me).garbage.new@.last() == chain[0]);
                assert(state.record(me).garbage.new@.contains(chain[0]));
                assert(state.record(me).garbage.holds(chain[0]));
                assert(state.heap.holder(chain[0]) == Holder::Local(me));
                assert(chain[0] == old(self).nodes()[0]);
            }
        }
        proof {
            assert forall|c: usize|
                old(state).heap.is_live(c) && old(state).heap.kind(c)
                    != crate::mem::epoch::heap::RECORD_KIND && !chain.contains(c) implies (
            #[trigger] state.heap.is_live(c)) && state.heap.kind(c) == old(state).heap.kind(c) by {
                assert(pinned.heap.is_live(c));
                if popped is Some {
                    if c == chain[0] {
                        assert(chain.contains(chain[0]));
                    }
                    assert(pinned.heap.same_cell(&state.heap, c));
                }
            }
            assert(chain == old(self).nodes());
            assert(old(state).keeps_live_but(state, chain));
            let gone = if popped is Some {
                seq![chain[0]]
            } else {
                Seq::empty()
            };
            if popped is Some {
                assert(gone[0] == chain[0]);
                lemma_link(&old(self).nodes, &old(state).heap, chain, 0);
                assert(old(state).heap.same_state(&pinned.heap, chain[0]));
            }
            assert forall|a: usize| !gone.contains(a) implies #[trigger] pinned.heap.same_cell(
                &state.heap,
                a,
            ) by {
                if popped is Some && a == chain[0] {
                    assert(gone[0] == a);
                }
            }
            old(state).lemma_worked(&pinned, state, me, Seq::empty(), gone);
        }
        popped
    }

    /// Takes the oldest item out of a queue that is not empty.
    pub fn pop(&mut self, state: &mut EpochState, me: usize) -> (r: T)
        requires
            old(self).wf(&old(state).heap),
            old(state).wf(),
            old(state).enrolled(me),
            old(state).in_critical(me) < usize::MAX,
            old(self)@.len() > 0,
        ensures
            final(self).wf(&final(state).heap),
            final(state).wf(),
            r == old(self)@[0],
            final(self)@ == old(self)@.subrange(1, old(self)@.len() as int),
            final(self).nodes() == old(self).nodes().subrange(1, old(self).nodes().len() as int),
            final(state).heap.is_retired(old(self).nodes()[0]),
            final(state).enrolled(me),
            final(state).in_critical(me) == old(state).in_critical(me),
            old(state).worked(final(state), Seq::empty(), seq![old(self).nodes()[0]]),
            old(state).list_step(final(state), me),
            final(state).heap.holder(old(self).nodes()[0]) == Holder::Local(me),
            final(state).record(me).garbage.new@.len() > 0,
            final(state).record(me).garbage.new@.last() == old(self).nodes()[0],
            final(state).record(me).garbage.holds(old(self).nodes()[0]),
            old(state).keeps_live_but(final(state), old(self).nodes()),
    {
        let mut got: Option<T> = None;
        loop
            invariant_except_break
                *self == *old(self),
                *state == *old(state),
                got is None,
            invariant
                old(self).wf(&old(state).heap),
                old(state).wf(),
                old(state).enrolled(me),
                old(state).in_critical(me) < usize::MAX,
                old(self)@.len() > 0,
            ensures
                got == Some(old(self)@[0]),
                self.wf(&state.heap),
                state.wf(),
                self@ == old(self)@.subrange(1, old(self)@.len() as int),
                self.nodes() == old(self).nodes().subrange(1, old(self).nodes().len() as int),
                state.heap.is_retired(old(self).nodes()[0]),
                state.enrolled(me),
                state.in_critical(me) == old(state).in_critical(me),
                old(state).keeps_live_but(state, old(self).nodes()),
                old(state).worked(state, Seq::empty(), seq![old(self).nodes()[0]]),
                old(state).list_step(state, me),
                state.heap.holder(old(self).nodes()[0]) == Holder::Local(me),
                state.record(me).garbage.new@.len() > 0,
                state.record(me).garbage.new@.last() == old(self).nodes()[0],
                state.record(me).garbage.holds(old(self).nodes()[0]),
            decreases 0int,
        {
            got = self.try_pop(state, me);
            if got.is_some() {
                break ;
            }
        }
        got.unwrap()
    }

    /// Whether the queue is empty.
    pub fn is_empty(&self, state: &mut EpochState, me: usize) -> (r: bool)
        requires
            self.wf(&old(state).heap),
            old(state).wf(),
            old(state).enrolled(me),
            old(state).in_critical(me) < usize::MAX,
        ensures
            self.wf(&final(state).heap),
            final(state).wf(),
            r == (self@.len() == 0),
            final(state).enrolled(me),
            final(state).in_critical(me) == old(state).in_critical(me),
            old(state).step(final(state)),
            old(state).list_step(final(state), me),
            old(state).keeps_live_but(final(state), self.nodes()),
    {
        let guard = pin(state, me);
        proof {
            self.lemma_wf_step(old(state), state);
            old(state).lemma_step_keeps(state, self.nodes());
            state.lemma_record_inv(me);
            lemma_link(&self.nodes, &state.heap, self.chain@, 0);
            if self.chain@.len() > 1 {
                lemma_link(&self.nodes, &state.heap, self.chain@, 1);
            }
        }
        let head = self.head.load(MemOrder::Acquire, &guard).unwrap();
        let empty = self.nodes.get(head, &state.heap).next.load(MemOrder::Acquire,
            &guard).is_none();
        let ghost pinned = *state;
        guard.release(state);
        proof {
            pinned.lemma_released_step(old(state), state, me);
        }
        empty
    }
}

} // verus!
