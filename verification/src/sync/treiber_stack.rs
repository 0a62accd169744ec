//! Treiber's stack: a linked list of nodes whose head is swung by
//! compare-and-set.

use crate::mem::epoch::global::EpochState;
use crate::mem::epoch::heap::{Heap, RECORD_KIND};
use crate::mem::epoch::participants::successor;
use crate::sync::order::{lifo_after, taken, Op};
use crate::mem::epoch::{pin, Arena, Atomic, Guard, MemOrder, Owned, Shared};
use crate::mem::epoch::heap::Holder;
use vstd::prelude::*;

verus! {

/// The kind of the heap cells that hold nodes of a Treiber stack.
pub const TREIBER_KIND: usize = 1;

/// A node of the stack. The value is gone once the node was popped.
pub struct Node<T> {
    data: Option<T>,
    next: Atomic,
}

/// A last-in, first-out stack.
pub struct TreiberStack<T> {
    head: Atomic,
    nodes: Arena<Node<T>>,
    chain: Ghost<Seq<usize>>,
}

impl<T> TreiberStack<T> {
    /// The addresses of the nodes on the stack, the top first.
    pub closed spec fn nodes(&self) -> Seq<usize> {
        self.chain@
    }

    /// The items on the stack, the top first.
    pub closed spec fn view(&self) -> Seq<T> {
        Seq::new(self.chain@.len(), |i: int| self.nodes.at(self.chain@[i]).data->0)
    }

    /// The stack is in order in `heap`: its nodes are distinct live cells
    /// of the stack's kind, each holds a value and is linked to the one
    /// below it, and the head points to the top.
    pub closed spec fn wf(&self, heap: &Heap) -> bool {
        &&& self.nodes.kind() == TREIBER_KIND
        &&& forall|i: int, j: int| 0 <= i < j < self.chain@.len() ==> self.chain@[i]
            != self.chain@[j]
        &&& self.head@ == (if self.chain@.len() > 0 {
            self.chain@[0]
        } else {
            0
        })
        &&& forall|i: int|
            0 <= i < self.chain@.len() ==> heap.is_live(#[trigger] self.chain@[i]) && heap.kind(
                self.chain@[i],
            ) == TREIBER_KIND && self.nodes.has(self.chain@[i])
        &&& forall|i: int|
            0 <= i < self.chain@.len() ==> (#[trigger] self.nodes.at(self.chain@[i])).next@
                == successor(self.chain@, i) && self.nodes.at(self.chain@[i]).data is Some
    }

    /// A stack in order stays in order when the heap changes, as long as
    /// its nodes stay live cells of its kind.
    pub proof fn lemma_wf_framed(&self, h0: &Heap, h1: &Heap)
        requires
            self.wf(h0),
            forall|i: int|
                0 <= i < self.nodes().len() ==> h1.is_live(#[trigger] self.nodes()[i]) && h1.kind(
                    self.nodes()[i],
                ) == h0.kind(self.nodes()[i]),
        ensures
            self.wf(h1),
    {
        assert forall|i: int| 0 <= i < self.chain@.len() implies h1.is_live(
            #[trigger] self.chain@[i],
        ) && h1.kind(self.chain@[i]) == TREIBER_KIND && self.nodes.has(self.chain@[i]) by {
            assert(h1.is_live(self.nodes()[i]));
        }
    }

    /// The nodes of a stack in order are live cells that hold no
    /// participant record.
    pub proof fn lemma_nodes_live(&self, heap: &Heap)
        requires
            self.wf(heap),
        ensures
            self.kind_ok(),
            self.nodes().len() == self@.len(),
            forall|i: int|
                0 <= i < self.nodes().len() ==> heap.is_live(#[trigger] self.nodes()[i])
                    && heap.kind(self.nodes()[i]) == TREIBER_KIND,
    {
    }

    /// A step of the epoch scheme keeps a stack in order.
    pub proof fn lemma_wf_step(&self, s0: &EpochState, s1: &EpochState)
        requires
            self.wf(&s0.heap),
            s0.step(s1),
        ensures
            self.wf(&s1.heap),
    {
        assert forall|i: int| 0 <= i < self.nodes().len() implies s1.heap.is_live(
            #[trigger] self.nodes()[i],
        ) && s1.heap.kind(self.nodes()[i]) == s0.heap.kind(self.nodes()[i]) by {
            assert(s0.heap.is_live(self.chain@[i]));
            s0.lemma_step_keeps_live(s1, self.nodes()[i]);
        }
        self.lemma_wf_framed(&s0.heap, &s1.heap);
    }

    /// An empty stack.
    pub fn new() -> (s: TreiberStack<T>)
        ensures
            s@ == Seq::<T>::empty(),
            s.nodes() == Seq::<usize>::empty(),
            forall|heap: &Heap| s.wf(heap),
    {
        let s = TreiberStack {
            head: Atomic::null(),
            nodes: Arena::new(TREIBER_KIND),
            chain: Ghost(Seq::empty()),
        };
        assert(s@ =~= Seq::<T>::empty());
        s
    }

    /// Pushes `t` on top of the stack, for the participant `me`.
    pub fn push(&mut self, t: T, state: &mut EpochState, me: usize)
        requires
            old(self).wf(&old(state).heap),
            old(state).wf(),
            old(state).enrolled(me),
            old(state).in_critical(me) < usize::MAX,
        ensures
            final(self).wf(&final(state).heap),
            final(state).wf(),
            final(self)@ == seq![t] + old(self)@,
            final(self)@ == lifo_after(old(self)@, Op::Push(t)),
            final(self).nodes().len() == old(self).nodes().len() + 1,
            final(self).nodes().subrange(1, final(self).nodes().len() as int) == old(self).nodes(),
            final(state).enrolled(me),
            final(state).in_critical(me) == old(state).in_critical(me),
            final(state).era() - old(state).era() == (if old(state).record(me).try_gc
                && old(state).pin_advances(me) {
                1int
            } else {
                0int
            }),
            // besides the new node, the operation changes no cell but as a
            // step does
            old(state).worked(final(state), seq![final(self).nodes()[0]], Seq::empty()),
            old(state).list_step(final(state), me),
            old(state).keeps_live_but(final(state), old(self).nodes()),
    {
        let mut n = Owned::new(Node { data: Some(t), next: Atomic::null() });
        let guard = pin(state, me);
        let ghost pinned = *state;
        proof {
            old(self).lemma_wf_step(old(state), &pinned);
            old(state).lemma_step_keeps(&pinned, old(self).nodes());
            pinned.lemma_record_inv(me);
        }
        loop
            invariant_except_break
                *self == *old(self),
                *state == pinned,
                n@.data == Some(t),
            invariant
                old(self).wf(&pinned.heap),
                pinned.wf(),
                pinned.participants.listed(me),
            ensures
                self.wf(&state.heap),
                state.wf(),
                self@ == seq![t] + old(self)@,
                self.nodes().len() == old(self).nodes().len() + 1,
                self.nodes().subrange(1, self.nodes().len() as int) == old(self).nodes(),
                state.era() == pinned.era(),
                state.epoch == pinned.epoch,
                state.participants == pinned.participants,
                forall|b: usize|
                    pinned.heap.allocated(b) ==> #[trigger] pinned.heap.same_cell(&state.heap, b),
                !pinned.heap.allocated(self.nodes()[0]),
                forall|b: usize|
                    b != self.nodes()[0] ==> #[trigger] pinned.heap.same_cell(&state.heap, b),
            decreases 0int,
        {
            let head = self.head.load(MemOrder::Relaxed, &guard);
            n.get_mut().next.store_shared(head, MemOrder::Relaxed);
            let ghost made = n@;
            match self.head.cas_and_ref(
                head,
                n,
                MemOrder::Release,
                &guard,
                &mut self.nodes,
                &mut state.heap,
            ) {
                Ok(shared) => {
                    proof {
                        let a = shared.addr();
                        self.chain = Ghost(seq![a] + old(self).chain@);
                        let chain = self.chain@;
                        let below = old(self).chain@;
                        pinned.lemma_allocated(state, a);
                        assert(self.nodes.at(a) == made);
                        assert forall|i: int| 1 <= i < chain.len() implies (#[trigger] chain[i])
                            == below[i - 1] && pinned.heap.same_cell(&state.heap, chain[i])
                                && old(self).nodes.same_at(&self.nodes, chain[i]) && chain[i] != a
                                by {
                            assert(pinned.heap.is_live(below[i - 1]));
                        }
                        assert forall|i: int| 0 <= i < chain.len() implies (
                        #[trigger] self.nodes.at(chain[i])).next@ == successor(chain, i)
                            && self.nodes.at(chain[i]).data is Some by {
                            if i > 0 {
                                assert(chain[i] == below[i - 1]);
                                assert(old(self).nodes.at(below[i - 1]).next@ == successor(
                                    below,
                                    i - 1,
                                ));
                            }
                        }
                        assert forall|i: int| 0 <= i < chain.len() implies state.heap.is_live(
                            #[trigger] chain[i],
                        ) && state.heap.kind(chain[i]) == TREIBER_KIND && self.nodes.has(
                            chain[i],
                        ) by {
                            if i > 0 {
                                assert(chain[i] == below[i - 1]);
                                assert(pinned.heap.is_live(below[i - 1]));
                            }
                        }
                        assert forall|i: int, j: int| 0 <= i < j < chain.len() implies chain[i]
                            != chain[j] by {
                            assert(chain[j] == below[j - 1]);
                            if i > 0 {
                                assert(chain[i] == below[i - 1]);
                            }
                        }
                        assert forall|i: int| 0 <= i < self@.len() implies self@[i] == (seq![t]
                            + old(self)@)[i] by {
                            if i > 0 {
                                assert(chain[i] == below[i - 1]);
                            }
                        }
                        assert(self@ =~= seq![t] + old(self)@);
                        assert(self.nodes().subrange(1,
                            self.nodes().len() as int) =~= old(self).nodes());
                        assert(chain[0] == a);
                    }
                    break ;
                },
                Err(owned) => {
                    n = owned;
                },
            }
        }
        guard.release(state);
        proof {
            assert forall|c: usize|
                old(state).heap.is_live(c) && old(state).heap.kind(c) != RECORD_KIND
                    && !old(self).nodes().contains(c) implies (#[trigger] state.heap.is_live(c))
                && state.heap.kind(c) == old(state).heap.kind(c) by {
                assert(pinned.heap.is_live(c));
                assert(pinned.heap.same_cell(&state.heap, c));
            }
            let born = seq![self.nodes()[0]];
            assert(born[0] == self.nodes()[0]);
            assert forall|a: usize| !born.contains(a) implies #[trigger] pinned.heap.same_cell(
                &state.heap,
                a,
            ) by {
                if a == self.nodes()[0] {
                    assert(born[0] == a);
                }
            }
            assert(state.heap.is_live(self.chain@[0]));
            old(state).lemma_worked(&pinned, state, me, born, Seq::empty());
        }
    }

    /// Pops the top of the stack, for the participant `me`. Returns
    /// `None` if the stack is empty. The node that held the item is handed
    /// to `me` as garbage.
    pub fn try_pop(&mut self, state: &mut EpochState, me: usize) -> (r: Option<T>)
        requires
            old(self).wf(&old(state).heap),
            old(state).wf(),
            old(state).enrolled(me),
            old(state).in_critical(me) < usize::MAX,
        ensures
            final(self).wf(&final(state).heap),
            final(state).wf(),
            r == taken(old(self)@, Op::Pop),
            final(self)@ == lifo_after(old(self)@, Op::Pop),
            r is None <==> old(self)@.len() == 0,
            r is None ==> final(self)@ == old(self)@ && final(self).nodes() == old(self).nodes(),
            r matches Some(v) ==> v == old(self)@[0] && final(self)@ == old(self)@.subrange(
                1,
                old(self)@.len() as int,
            ) && final(self).nodes() == old(self).nodes().subrange(
                1,
                old(self).nodes().len() as int,
            ) && final(state).heap.is_retired(old(self).nodes()[0]) && final(state).heap.stamp(
                old(self).nodes()[0],
            ) == final(state).era(),
            final(state).enrolled(me),
            final(state).in_critical(me) == old(state).in_critical(me),
            final(state).era() - old(state).era() == (if old(state).record(me).try_gc
                && old(state).pin_advances(me) {
                1int
            } else {
                0int
            }),
            // besides the node popped, the operation changes no cell but as
            // a step does: what others guard stays guarded
            old(state).worked(final(state), Seq::empty(), (if r is Some {
                seq![old(self).nodes()[0]]
            } else {
                Seq::empty()
            })),
            old(state).list_step(final(state), me),
            // the node taken off is in the caller's hands: it is the last
            // of the caller's newest bag
            r is Some ==> final(state).heap.holder(old(self).nodes()[0]) == Holder::Local(me)
                && final(state).record(me).garbage.new@.len() > 0 && final(state).record(
                me,
            ).garbage.new@.last() == old(self).nodes()[0] && final(state).record(
                me,
            ).garbage.holds(old(self).nodes()[0]),
            // the item went to the caller: the node holds none any more
            r is Some ==> final(self).knows(old(self).nodes()[0]) && final(self).item_at(
                old(self).nodes()[0],
            ) is None,
            old(state).keeps_live_but(final(state), old(self).nodes()),
    {
        let guard = pin(state, me);
        let ghost pinned = *state;
        let ghost chain = self.chain@;
        proof {
            old(self).lemma_wf_step(old(state), &pinned);
            old(state).lemma_step_keeps(&pinned, chain);
            pinned.lemma_record_inv(me);
        }
        let mut popped: Option<T> = None;
        loop
            invariant_except_break
                *self == *old(self),
                *state == pinned,
                popped is None,
            invariant
                old(self).wf(&pinned.heap),
                pinned.wf(),
                pinned.participants.listed(me),
                pinned.pinned(me),
                guard.owner() == me,
            ensures
                self.wf(&state.heap),
                state.wf(),
                state.participants.listed(me),
                state.in_critical(me) == pinned.in_critical(me),
                state.record(me).active == pinned.record(me).active,
                state.era() == pinned.era(),
                state.epoch == pinned.epoch,
                state.participants.order() == pinned.participants.order(),
                pinned.others_same(state, me),
                popped is Some ==> state.heap.kind(old(self).nodes()[0]) == pinned.heap.kind(
                    old(self).nodes()[0],
                ),
                popped is Some ==> state.heap.holder(old(self).nodes()[0]) == Holder::Local(me)
                    && state.record(me).garbage.new@ == pinned.record(me).garbage.new@.push(
                    old(self).nodes()[0],
                ),
                popped is Some ==> self.nodes.has(old(self).nodes()[0]) && self.nodes.at(
                    old(self).nodes()[0],
                ).data is None,
                popped is None <==> old(self)@.len() == 0,
                popped is None ==> self@ == old(self)@ && self.nodes() == old(self).nodes()
                    && *state == pinned,
                popped matches Some(v) ==> v == old(self)@[0] && self@ == old(self)@.subrange(
                    1,
                    old(self)@.len() as int,
                ) && self.nodes() == old(self).nodes().subrange(
                    1,
                    old(self).nodes().len() as int,
                ) && state.heap.is_retired(old(self).nodes()[0]) && state.heap.stamp(
                    old(self).nodes()[0],
                ) == state.era() && forall|b: usize|
                    b != old(self).nodes()[0] ==> pinned.heap.same_cell(&state.heap, b),
            decreases 0int,
        {
            match self.head.load(MemOrder::Acquire, &guard) {
                Some(head) => {
                    let a: usize = head.as_raw();
                    let ghost chain = self.chain@;
                    proof {
                        assert(pinned.heap.is_live(chain[0]));
                        assert(self.nodes.at(chain[0]).next@ == successor(chain, 0));
                    }
                    let next = self.nodes.get(head, &state.heap).next.load(
                        MemOrder::Relaxed,
                        &guard,
                    );
                    if self.head.cas_shared(Some(head), next, MemOrder::Release) {
                        guard.unlinked(state, head);
                        // the node is unlinked, and nobody else takes its value
                        let mut node = self.nodes.take(a);
                        let ghost taken = self.nodes;
                        popped = node.data.take();
                        self.nodes.put(a, node);
                        proof {
                            self.chain = Ghost(chain.subrange(1, chain.len() as int));
                            let rest = self.chain@;
                            assert forall|i: int| 0 <= i < rest.len() implies (#[trigger] rest[i])
                                == chain[i + 1] && rest[i] != a && pinned.heap.same_cell(
                                &state.heap,
                                rest[i],
                            ) && old(self).nodes.same_at(&self.nodes, rest[i]) by {
                                assert(chain[0] != chain[i + 1]);
                                assert(pinned.heap.is_live(chain[i + 1]));
                                assert(old(self).nodes.same_at(&taken, chain[i + 1]));
                                assert(taken.same_at(&self.nodes, chain[i + 1]));
                            }
                            assert forall|i: int| 0 <= i < rest.len() implies (
                            #[trigger] self.nodes.at(rest[i])).next@ == successor(rest, i)
                                && self.nodes.at(rest[i]).data is Some by {
                                assert(rest[i] == chain[i + 1]);
                                assert(old(self).nodes.at(chain[i + 1]).next@ == successor(
                                    chain,
                                    i + 1,
                                ));
                            }
                            assert forall|i: int| 0 <= i < rest.len() implies state.heap.is_live(
                                #[trigger] rest[i],
                            ) && state.heap.kind(rest[i]) == TREIBER_KIND && self.nodes.has(
                                rest[i],
                            ) by {
                                assert(rest[i] == chain[i + 1]);
                                assert(pinned.heap.is_live(chain[i + 1]));
                            }
                            assert forall|i: int, j: int| 0 <= i < j < rest.len() implies rest[i]
                                != rest[j] by {
                                assert(rest[i] == chain[i + 1]);
                                assert(rest[j] == chain[j + 1]);
                            }
                            assert forall|i: int| 0 <= i < self@.len() implies self@[i]
                                == old(self)@[i + 1] by {
                                assert(rest[i] == chain[i + 1]);
                            }
                            assert(self@ =~= old(self)@.subrange(1, old(self)@.len() as int));
                            assert(old(self).nodes.at(chain[0]).data is Some);
                        }
                        break ;
                    }
                },
                None => {
                    proof {
                        if self.chain@.len() > 0 {
                            assert(pinned.heap.is_live(self.chain@[0]));
                            pinned.heap.lemma_null_is_free();
                        }
                    }
                    break ;
                },
            }
        }
        let ghost worked = *state;
        guard.release(state);
        proof {
            if popped is Some {
                let bag = worked.record(me).garbage.new@;
                assert(bag == pinned.record(me).garbage.new@.push(chain[0]));
                assert(bag[bag.len() - 1] == chain[0]);
                assert(state.record(me).garbage.new@ == bag);
                assert(state.record(me).garbage.new@.last() == chain[0]);
                assert(state.record(me).garbage.new@.contains(chain[0]));
                assert(state.record(me).garbage.holds(chain[0]));
                assert(state.heap.holder(chain[0]) == Holder::Local(me));
                assert(chain[0] == old(self).nodes()[0]);
            }
        }
        proof {
            assert forall|c: usize|
                old(state).heap.is_live(c) && old(state).heap.kind(c) != RECORD_KIND
                    && !chain.contains(c) implies (#[trigger] state.heap.is_live(c))
                && state.heap.kind(c) == old(state).heap.kind(c) by {
                assert(pinned.heap.is_live(c));
                if popped is Some {
                    if c == chain[0] {
                        assert(chain.contains(chain[0]));
                    }
                    assert(pinned.heap.same_cell(&state.heap, c));
                }
            }
            assert(chain == old(self).nodes());
            assert(old(state).keeps_live_but(state, chain));
            let gone = if popped is Some {
                seq![chain[0]]
            } else {
                Seq::empty()
            };
            if popped is Some {
                assert(gone[0] == chain[0]);
                assert(old(state).heap.is_live(chain[0]));
                assert(old(state).heap.same_state(&pinned.heap, chain[0]));
            }
            assert forall|a: usize| !gone.contains(a) implies #[trigger] pinned.heap.same_cell(
                &state.heap,
                a,
            ) by {
                if popped is Some && a == chain[0] {
                    assert(gone[0] == a);
                }
            }
            old(state).lemma_worked(&pinned, state, me, Seq::empty(), gone);
        }
        popped
    }

    /// Pops the top of the stack, or returns `None` if the stack is empty.
    pub fn pop(&mut self, state: &mut EpochState, me: usize) -> (r: Option<T>)
        requires
            old(self).wf(&old(state).heap),
            old(state).wf(),
            old(state).enrolled(me),
            old(state).in_critical(me) < usize::MAX,
        ensures
            final(self).wf(&final(state).heap),
            final(state).wf(),
            r == taken(old(self)@, Op::Pop),
            final(self)@ == lifo_after(old(self)@, Op::Pop),
            r is None <==> old(self)@.len() == 0,
            r is None ==> final(self)@ == old(self)@ && final(self).nodes() == old(self).nodes(),
            r matches Some(v) ==> v == old(self)@[0] && final(self)@ == old(self)@.subrange(
                1,
                old(self)@.len() as int,
            ) && final(self).nodes() == old(self).nodes().subrange(
                1,
                old(self).nodes().len() as int,
            ) && final(state).heap.is_retired(old(self).nodes()[0]) && final(state).heap.stamp(
                old(self).nodes()[0],
            ) == final(state).era(),
            final(state).enrolled(me),
            final(state).in_critical(me) == old(state).in_critical(me),
            final(state).era() - old(state).era() == (if old(state).record(me).try_gc
                && old(state).pin_advances(me) {
                1int
            } else {
                0int
            }),
            // besides the node popped, the operation changes no cell but as
            // a step does: what others guard stays guarded
            old(state).worked(final(state), Seq::empty(), (if r is Some {
                seq![old(self).nodes()[0]]
            } else {
                Seq::empty()
            })),
            old(state).list_step(final(state), me),
            // the node taken off is in the caller's hands: it is the last
            // of the caller's newest bag
            r is Some ==> final(state).heap.holder(old(self).nodes()[0]) == Holder::Local(me)
                && final(state).record(me).garbage.new@.len() > 0 && final(state).record(
                me,
            ).garbage.new@.last() == old(self).nodes()[0] && final(state).record(
                me,
            ).garbage.holds(old(self).nodes()[0]),
            // the item went to the caller: the node holds none any more
            r is Some ==> final(self).knows(old(self).nodes()[0]) && final(self).item_at(
                old(self).nodes()[0],
            ) is None,
            old(state).keeps_live_but(final(state), old(self).nodes()),
    {
        self.try_pop(state, me)
    }

    /// Whether the stack is empty.
    pub fn is_empty(&self, state: &mut EpochState, me: usize) -> (r: bool)
        requires
            self.wf(&old(state).heap),
            old(state).wf(),
            old(state).enrolled(me),
            old(state).in_critical(me) < usize::MAX,
        ensures
            self.wf(&final(state).heap),
            final(state).wf(),
            r == (self@.len() == 0),
            final(state).enrolled(me),
            final(state).in_critical(me) == old(state).in_critical(me),
            final(state).era() - old(state).era() == (if old(state).record(me).try_gc
                && old(state).pin_advances(me) {
                1int
            } else {
                0int
            }),
            old(state).step(final(state)),
            old(state).list_step(final(state), me),
            old(state).keeps_live_but(final(state), self.nodes()),
    {
        let guard = pin(state, me);
        proof {
            self.lemma_wf_step(old(state), state);
            old(state).lemma_step_keeps(state, self.nodes());
            state.lemma_record_inv(me);
            if self.chain@.len() > 0 {
                assert(state.heap.is_live(self.chain@[0]));
                state.heap.lemma_null_is_free();
            }
        }
        let empty = self.head.load(MemOrder::Acquire, &guard).is_none();
        let ghost pinned = *state;
        guard.release(state);
        proof {
            pinned.lemma_released_step(old(state), state, me);
        }
        empty
    }

    /// Reads the pointer to the top node, under `guard`.
    pub fn top(&self, guard: &Guard) -> (r: Option<Shared>)
        ensures
            crate::mem::epoch::opt_addr(r) == self.raw_top(),
            r is None <==> self.raw_top() == 0,
    {
        self.head.load(MemOrder::Acquire, guard)
    }

    /// The address that the head holds: that of the top node of a stack in
    /// order, 0 if it is empty.
    pub closed spec fn raw_top(&self) -> usize {
        self.head@
    }

    /// Whether `a` is the address of a node that was pushed on this stack
    /// and whose cell may be allocated still.
    pub closed spec fn knows(&self, a: usize) -> bool {
        self.nodes.has(a)
    }

    /// The item in the node at `a`, if it was not popped.
    pub closed spec fn item_at(&self, a: usize) -> Option<T> {
        self.nodes.at(a).data
    }

    /// The head of a stack in order points to its top node, which the
    /// stack knows.
    pub proof fn lemma_top(&self, heap: &Heap)
        requires
            self.wf(heap),
        ensures
            self.raw_top() == (if self.nodes().len() > 0 {
                self.nodes()[0]
            } else {
                0
            }),
            forall|i: int|
                0 <= i < self.nodes().len() ==> self.knows(#[trigger] self.nodes()[i])
                    && self.item_at(self.nodes()[i]) == Some(self@[i]),
    {
        assert forall|i: int| 0 <= i < self.nodes().len() implies self.knows(
            #[trigger] self.nodes()[i],
        ) && self.item_at(self.nodes()[i]) == Some(self@[i]) by {
            assert(self.nodes.has(self.chain@[i]));
            assert(self.nodes.at(self.chain@[i]).data is Some);
        }
    }

    /// Reads the item through the pointer `p`, which was read under a
    /// guard that is still held, so that its cell is allocated still.
    /// Returns `None` if the item was popped.
    pub fn read(&self, p: Shared, heap: &Heap) -> (r: Option<&T>)
        requires
            heap.allocated(p.addr()),
            heap.kind(p.addr()) == TREIBER_KIND,
            self.knows(p.addr()),
            self.kind_ok(),
        ensures
            r is Some <==> self.item_at(p.addr()) is Some,
            r matches Some(v) ==> Some(*v) == self.item_at(p.addr()),
    {
        self.nodes.get(p, heap).data.as_ref()
    }

    /// Whether the stack keeps its nodes under its kind.
    pub closed spec fn kind_ok(&self) -> bool {
        self.nodes.kind() == TREIBER_KIND
    }
}

} // verus!
