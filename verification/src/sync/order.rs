//! The order in which items come out of a queue and of a stack, as laws
//! about sequences of operations.
//!
//! The queues and stacks of this crate state what each operation does to
//! the sequence of the items that the structure holds: a push on a queue
//! appends, a pop takes the first element, a push on a stack prepends.
//! Here the same is said of a whole history of operations.

use vstd::prelude::*;

verus! {

/// One operation on a queue or a stack.
pub enum Op<T> {
    /// Add an item.
    Push(T),
    /// Try to take an item out.
    Pop,
}

/// The items of a queue after `op`: a push appends, a pop takes the first
/// item of a queue that is not empty.
pub open spec fn fifo_after<T>(s: Seq<T>, op: Op<T>) -> Seq<T> {
    match op {
        Op::Push(t) => s.push(t),
        Op::Pop => if s.len() == 0 {
            s
        } else {
            s.subrange(1, s.len() as int)
        },
    }
}

/// The items of a stack, the top first, after `op`: a push prepends, a
/// pop takes the first item of a stack that is not empty.
pub open spec fn lifo_after<T>(s: Seq<T>, op: Op<T>) -> Seq<T> {
    match op {
        Op::Push(t) => seq![t] + s,
        Op::Pop => if s.len() == 0 {
            s
        } else {
            s.subrange(1, s.len() as int)
        },
    }
}

/// What `op` returns on a queue or a stack that holds `s`: a pop returns
/// the first item, if there is one; a push returns nothing.
pub open spec fn taken<T>(s: Seq<T>, op: Op<T>) -> Option<T> {
    match op {
        Op::Push(t) => None,
        Op::Pop => if s.len() == 0 {
            None
        } else {
            Some(s[0])
        },
    }
}

/// The items of a queue that held `s` after the operations `ops`.
pub open spec fn fifo_run<T>(s: Seq<T>, ops: Seq<Op<T>>) -> Seq<T>
    decreases ops.len(),
{
    if ops.len() == 0 {
        s
    } else {
        fifo_after(fifo_run(s, ops.drop_last()), ops.last())
    }
}

/// The items of a stack that held `s` after the operations `ops`.
pub open spec fn lifo_run<T>(s: Seq<T>, ops: Seq<Op<T>>) -> Seq<T>
    decreases ops.len(),
{
    if ops.len() == 0 {
        s
    } else {
        lifo_after(lifo_run(s, ops.drop_last()), ops.last())
    }
}

/// The items that the pushes among `ops` add, in the order of the pushes.
pub open spec fn pushes<T>(ops: Seq<Op<T>>) -> Seq<T>
    decreases ops.len(),
{
    if ops.len() == 0 {
        Seq::empty()
    } else {
        match ops.last() {
            Op::Push(t) => pushes(ops.drop_last()).push(t),
            Op::Pop => pushes(ops.drop_last()),
        }
    }
}

/// The items that the pops among `ops` return, in the order of the pops,
/// on a queue that held `s`.
pub open spec fn fifo_pops<T>(s: Seq<T>, ops: Seq<Op<T>>) -> Seq<T>
    decreases ops.len(),
{
    if ops.len() == 0 {
        Seq::empty()
    } else {
        match taken(fifo_run(s, ops.drop_last()), ops.last()) {
            Some(t) => fifo_pops(s, ops.drop_last()).push(t),
            None => fifo_pops(s, ops.drop_last()),
        }
    }
}

/// First in, first out, and nothing lost: after any operations on a
/// queue, what was popped, followed by what is left, is what the queue
/// held at first, followed by what was pushed. So the pops return the
/// items in the order in which they were pushed, the i-th pop that returns
/// an item returns the i-th item, and the number of items left is the
/// number that the queue held and that were pushed less the number that
/// pops returned.
pub proof fn lemma_fifo_conserves<T>(s: Seq<T>, ops: Seq<Op<T>>)
    ensures
        fifo_pops(s, ops) + fifo_run(s, ops) == s + pushes(ops),
        fifo_run(s, ops).len() == s.len() + pushes(ops).len() - fifo_pops(s, ops).len(),
        forall|i: int|
            0 <= i < fifo_pops(s, ops).len() ==> (#[trigger] fifo_pops(s, ops)[i]) == (s + pushes(
                ops,
            ))[i],
    decreases ops.len(),
{
    if ops.len() == 0 {
        assert(fifo_pops(s, ops) + fifo_run(s, ops) =~= s + pushes(ops));
    } else {
        let before = ops.drop_last();
        lemma_fifo_conserves(s, before);
        let held = fifo_run(s, before);
        let out = fifo_pops(s, before);
        assert(out + held == s + pushes(before));
        match ops.last() {
            Op::Push(t) => {
                assert(out + held.push(t) =~= (out + held).push(t));
                assert((s + pushes(before)).push(t) =~= s + pushes(before).push(t));
            },
            Op::Pop => {
                if held.len() > 0 {
                    assert(out.push(held[0]) + held.subrange(1, held.len() as int) =~= out + held);
                }
            },
        }
    }
    assert(fifo_pops(s, ops).len() + fifo_run(s, ops).len() == (s + pushes(ops)).len());
    assert forall|i: int| 0 <= i < fifo_pops(s, ops).len() implies (#[trigger] fifo_pops(
        s,
        ops,
    )[i]) == (s + pushes(ops))[i] by {
        assert((fifo_pops(s, ops) + fifo_run(s, ops))[i] == fifo_pops(s, ops)[i]);
    }
}

/// The number of pops among `ops` that return an item, on a stack that
/// held `s`.
pub open spec fn lifo_pop_count<T>(s: Seq<T>, ops: Seq<Op<T>>) -> nat
    decreases ops.len(),
{
    if ops.len() == 0 {
        0
    } else {
        match taken(lifo_run(s, ops.drop_last()), ops.last()) {
            Some(t) => lifo_pop_count(s, ops.drop_last()) + 1,
            None => lifo_pop_count(s, ops.drop_last()),
        }
    }
}

/// Nothing is lost on a stack: after any operations, the number of items
/// left is the number that the stack held and that were pushed less the
/// number that pops returned.
pub proof fn lemma_lifo_conserves<T>(s: Seq<T>, ops: Seq<Op<T>>)
    ensures
        lifo_run(s, ops).len() == s.len() + pushes(ops).len() - lifo_pop_count(s, ops),
    decreases ops.len(),
{
    if ops.len() > 0 {
        lemma_lifo_conserves(s, ops.drop_last());
    }
}

/// The operations that push the items of `xs`, in their order.
pub open spec fn push_all<T>(xs: Seq<T>) -> Seq<Op<T>> {
    Seq::new(xs.len(), |i: int| Op::Push(xs[i]))
}

/// The operations that pop `n` times.
pub open spec fn pop_times<T>(n: nat) -> Seq<Op<T>> {
    Seq::new(n, |i: int| Op::Pop)
}

/// The items of `xs` in reverse order.
pub open spec fn reversed<T>(xs: Seq<T>) -> Seq<T> {
    Seq::new(xs.len(), |i: int| xs[xs.len() - 1 - i])
}

/// Pushing the items of `xs` on a stack puts them on top of it in reverse
/// order.
pub proof fn lemma_lifo_pushed<T>(s: Seq<T>, xs: Seq<T>)
    ensures
        lifo_run(s, push_all(xs)) == reversed(xs) + s,
    decreases xs.len(),
{
    if xs.len() == 0 {
        assert(push_all(xs).len() == 0);
        assert(reversed(xs) + s =~= s);
    } else {
        let before = xs.drop_last();
        lemma_lifo_pushed(s, before);
        assert(push_all(xs).drop_last() =~= push_all(before));
        assert(push_all(xs).last() == Op::Push(xs.last()));
        assert(seq![xs.last()] + (reversed(before) + s) =~= reversed(xs) + s);
    }
}

/// Last in, first out: the pops that follow the pushes of the items of
/// `xs` on a stack return these items in reverse order, one after the
/// other, and leave the stack as it was before the pushes.
pub proof fn lemma_lifo_reverses<T>(s: Seq<T>, xs: Seq<T>, k: nat)
    requires
        k <= xs.len(),
    ensures
        lifo_run(s, push_all(xs) + pop_times(k)) == reversed(xs).subrange(
            k as int,
            xs.len() as int,
        ) + s,
        k < xs.len() ==> taken(lifo_run(s, push_all(xs) + pop_times(k)), Op::Pop) == Some(
            xs[xs.len() - 1 - k],
        ),
        k == xs.len() ==> lifo_run(s, push_all(xs) + pop_times(k)) == s,
    decreases k,
{
    let ops = push_all(xs) + pop_times::<T>(k);
    if k == 0 {
        assert(ops =~= push_all(xs));
        lemma_lifo_pushed(s, xs);
        assert(reversed(xs).subrange(0, xs.len() as int) =~= reversed(xs));
    } else {
        lemma_lifo_reverses(s, xs, (k - 1) as nat);
        assert(ops.drop_last() =~= push_all(xs) + pop_times::<T>((k - 1) as nat));
        assert(ops.last() == Op::<T>::Pop);
        let held = lifo_run(s, ops.drop_last());
        assert(held == reversed(xs).subrange(k - 1, xs.len() as int) + s);
        assert(held.len() > 0);
        assert(held.subrange(1, held.len() as int) =~= reversed(xs).subrange(
            k as int,
            xs.len() as int,
        ) + s);
    }
    let now = lifo_run(s, ops);
    if k < xs.len() {
        assert(now[0] == reversed(xs)[k as int]);
    } else {
        assert(reversed(xs).subrange(k as int, xs.len() as int) + s =~= s);
    }
}

} // verus!
