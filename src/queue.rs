//! A first-in-first-out queue built from two stacks.
use vstd::prelude::*;

use crate::stack::Stack;

verus! {

/// A FIFO queue. New items go onto `incoming`; `dequeue` serves from
/// `outgoing`, which is refilled from `incoming`, reversed, only once it is
/// empty. Its view lists the waiting items, oldest first.
pub struct Queue<T> {
    incoming: Stack<T>,
    outgoing: Stack<T>,
}

impl<T> View for Queue<T> {
    type V = Seq<T>;

    closed spec fn view(&self) -> Seq<T> {
        self.outgoing@ + self.incoming@.reverse()
    }
}

impl<T> Queue<T> {
    pub fn new() -> (q: Queue<T>)
        ensures
            q@ == Seq::<T>::empty(),
    {
        let q = Queue { incoming: Stack::new(), outgoing: Stack::new() };
        proof {
            assert(q@ =~= Seq::<T>::empty());
        }
        q
    }

    pub fn enqueue(&mut self, item: T)
        ensures
            final(self)@ == old(self)@.push(item),
    {
        self.incoming.push(item);
        proof {
            assert(self.incoming@.reverse() =~= old(self).incoming@.reverse().push(item));
            assert(final(self)@ =~= old(self)@.push(item));
        }
    }

    pub fn dequeue(&mut self) -> (r: Option<T>)
        ensures
            old(self)@.len() == 0 ==> r is None && final(self)@ == old(self)@,
            old(self)@.len() > 0 ==> r == Some(old(self)@[0]) && final(self)@ == old(self)@.drop_first(),
    {
        self.move_incoming_if_need();
        let r = self.outgoing.pop();
        proof {
            if old(self)@.len() > 0 {
                assert(final(self)@ =~= old(self)@.drop_first());
            }
        }
        r
    }

    /// Where `outgoing` is empty, moves every item of `incoming` onto it, so
    /// that the oldest item ends on top. The queue's contents do not change.
    fn move_incoming_if_need(&mut self)
        ensures
            final(self)@ == old(self)@,
            old(self)@.len() > 0 ==> final(self).outgoing@.len() > 0,
            old(self).outgoing@.len() > 0 || old(self).incoming@.len() == 0 ==> final(self).outgoing@
                == old(self).outgoing@ && final(self).incoming@ == old(self).incoming@,
            old(self).outgoing@.len() == 0 && old(self).incoming@.len() > 0 ==> final(self).incoming@.len() == 0 && final(self).outgoing@ == old(self).incoming@.reverse(),
    {
        if self.outgoing.empty() && !self.incoming.empty() {
            let ghost moved = self.incoming@;
            loop
                invariant
                    moved.len() == self.incoming@.len() + self.outgoing@.len(),
                    self.incoming@ == moved.subrange(self.outgoing@.len() as int, moved.len() as int),
                    self.outgoing@ == moved.subrange(0, self.outgoing@.len() as int).reverse(),
                ensures
                    self.incoming@.len() == 0,
                decreases self.incoming@.len(),
            {
                match self.incoming.pop() {
                    Some(x) => {
                        let ghost k = self.outgoing@.len() as int;
                        self.outgoing.push(x);
                        proof {
                            assert(self.incoming@ =~= moved.subrange(k + 1, moved.len() as int));
                            assert(self.outgoing@ =~= moved.subrange(0, k + 1).reverse());
                        }
                    },
                    None => break,
                }
            }
            proof {
                assert(moved.subrange(0, moved.len() as int) =~= moved);
                assert(final(self)@ =~= old(self)@);
            }
        }
    }
}

/// Runs a sequence of calls on a queue that starts empty, each as the
/// contracts of `enqueue` and `dequeue` state it: `Some(x)` enqueues `x`,
/// `None` dequeues. Gives the queue's view at the end, then the values that
/// the dequeues returned, in call order.
pub open spec fn run<T>(calls: Seq<Option<T>>) -> (Seq<T>, Seq<T>)
    decreases calls.len(),
{
    if calls.len() == 0 {
        (Seq::empty(), Seq::empty())
    } else {
        let (q, out) = run(calls.drop_last());
        match calls.last() {
            Some(x) => (q.push(x), out),
            None => if q.len() == 0 {
                (q, out)
            } else {
                (q.drop_first(), out.push(q[0]))
            },
        }
    }
}

/// The values that the calls enqueue, in call order.
pub open spec fn enqueued<T>(calls: Seq<Option<T>>) -> Seq<T>
    decreases calls.len(),
{
    if calls.len() == 0 {
        Seq::empty()
    } else {
        match calls.last() {
            Some(x) => enqueued(calls.drop_last()).push(x),
            None => enqueued(calls.drop_last()),
        }
    }
}

/// First in, first out: whatever the interleaving of enqueues and dequeues,
/// the values dequeued, in order, followed by those still waiting, are
/// exactly the values enqueued, in order. So the dequeued values are a
/// prefix of the enqueued ones: none reordered, lost or repeated.
pub proof fn lemma_fifo<T>(calls: Seq<Option<T>>)
    ensures
        run(calls).1 + run(calls).0 == enqueued(calls),
        run(calls).1 == enqueued(calls).subrange(0, run(calls).1.len() as int),
    decreases calls.len(),
{
    if calls.len() > 0 {
        lemma_fifo(calls.drop_last());
        let (q, out) = run(calls.drop_last());
        match calls.last() {
            Some(x) => {
                assert(out + q.push(x) =~= (out + q).push(x));
            },
            None => {
                if q.len() > 0 {
                    assert(out.push(q[0]) + q.drop_first() =~= out + q);
                }
            },
        }
    }
    let (q, out) = run(calls);
    assert(enqueued(calls).subrange(0, out.len() as int) =~= out);
}

} // verus!
