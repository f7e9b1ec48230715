use vstd::prelude::*;
use std::collections::VecDeque;

verus! {

/// What a consumer gets from the queue.
pub enum Dequeued<T> {
    /// The oldest pending statement, now owned by this consumer alone.
    Item(T),
    /// Nothing pending, but the producer may still send: wait and ask again.
    Empty,
    /// The producer side is closed and everything has been handed out.
    End,
}

/// First-in-first-out hand-off between one producer and many consumers.
///
/// Besides the pending items the queue keeps, as ghost state, every item it
/// ever accepted and every item it handed out, in order.
pub struct WorkQueue<T> {
    items: VecDeque<T>,
    closed: bool,
    accepted: Ghost<Seq<T>>,
    delivered: Ghost<Seq<T>>,
}

impl<T> WorkQueue<T> {
    pub closed spec fn pending(&self) -> Seq<T> {
        self.items@
    }

    pub closed spec fn is_closed(&self) -> bool {
        self.closed
    }

    /// Everything the producer has enqueued so far, in arrival order.
    pub closed spec fn accepted(&self) -> Seq<T> {
        self.accepted@
    }

    /// Everything handed to consumers so far, in hand-out order.
    pub closed spec fn delivered(&self) -> Seq<T> {
        self.delivered@
    }

    /// What was accepted is exactly what was delivered followed by what is pending.
    pub open spec fn wf(&self) -> bool {
        self.accepted() == self.delivered() + self.pending()
    }

    pub fn new() -> (q: Self)
        ensures
            q.wf(),
            q.pending() == Seq::<T>::empty(),
            q.accepted() == Seq::<T>::empty(),
            q.delivered() == Seq::<T>::empty(),
            !q.is_closed(),
    {
        let q = WorkQueue {
            items: VecDeque::new(),
            closed: false,
            accepted: Ghost(Seq::empty()),
            delivered: Ghost(Seq::empty()),
        };
        proof {
            assert(q.delivered@ + q.items@ =~= Seq::<T>::empty());
        }
        q
    }

    pub fn len(&self) -> (n: usize)
        ensures
            n == self.pending().len(),
    {
        self.items.len()
    }

    pub fn is_closed_now(&self) -> (b: bool)
        ensures
            b == self.is_closed(),
    {
        self.closed
    }

    /// Appends a statement at the back. Refused (and handed back) once the
    /// producer side is closed.
    pub fn enqueue(&mut self, item: T) -> (r: Result<(), T>)
        requires
            old(self).wf(),
        ensures
            final(self).wf(),
            final(self).is_closed() == old(self).is_closed(),
            final(self).delivered() == old(self).delivered(),
            old(self).is_closed() ==> r == Err::<(), T>(item) && final(self).pending() == old(
                self,
            ).pending() && final(self).accepted() == old(self).accepted(),
            !old(self).is_closed() ==> r is Ok && final(self).pending() == old(self).pending().push(
                item,
            ) && final(self).accepted() == old(self).accepted().push(item),
    {
        if self.closed {
            return Err(item);
        }
        proof {
            self.accepted@ = self.accepted@.push(item);
        }
        self.items.push_back(item);
        proof {
            assert(self.accepted@ =~= self.delivered@ + self.items@);
        }
        Ok(())
    }

    /// Closes the producer side; what is pending stays to be drained.
    pub fn close(&mut self)
        requires
            old(self).wf(),
        ensures
            final(self).wf(),
            final(self).is_closed(),
            final(self).pending() == old(self).pending(),
            final(self).accepted() == old(self).accepted(),
            final(self).delivered() == old(self).delivered(),
    {
        self.closed = true;
    }

    /// Takes the oldest pending statement. `End` comes only once the
    /// producer side is closed and nothing is pending.
    pub fn dequeue(&mut self) -> (r: Dequeued<T>)
        requires
            old(self).wf(),
        ensures
            final(self).wf(),
            final(self).is_closed() == old(self).is_closed(),
            final(self).accepted() == old(self).accepted(),
            old(self).pending().len() > 0 ==> r == Dequeued::Item(old(self).pending()[0])
                && final(self).pending() == old(self).pending().drop_first()
                && final(self).delivered() == old(self).delivered().push(old(self).pending()[0]),
            old(self).pending().len() == 0 ==> final(self).pending() == old(self).pending()
                && final(self).delivered() == old(self).delivered(),
            old(self).pending().len() == 0 && old(self).is_closed() ==> r is End,
            old(self).pending().len() == 0 && !old(self).is_closed() ==> r is Empty,
    {
        match self.items.pop_front() {
            Some(item) => {
                proof {
                    self.delivered@ = self.delivered@.push(item);
                    assert(self.accepted@ =~= self.delivered@ + self.items@);
                }
                Dequeued::Item(item)
            },
            None => {
                if self.closed {
                    Dequeued::End
                } else {
                    Dequeued::Empty
                }
            },
        }
    }
}

/// No statement is handed out twice: what consumers received is exactly the
/// beginning of what the producer sent, item for item, in the same order.
pub proof fn lemma_no_duplication<T>(q: &WorkQueue<T>)
    requires
        q.wf(),
    ensures
        q.delivered().len() <= q.accepted().len(),
        q.delivered() == q.accepted().subrange(0, q.delivered().len() as int),
{
    assert(q.delivered() =~= q.accepted().subrange(0, q.delivered().len() as int));
}

/// When the queue answers `End` (closed, nothing pending), every accepted
/// statement has been handed out: none is dropped at shutdown.
pub proof fn lemma_drained_at_end<T>(q: &WorkQueue<T>)
    requires
        q.wf(),
        q.is_closed(),
        q.pending().len() == 0,
    ensures
        q.delivered() == q.accepted(),
{
    assert(q.delivered() + q.pending() =~= q.delivered());
}

} // verus!
