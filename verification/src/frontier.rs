//! The frontier queue: the pending URLs of a crawl, first in, first out.

use crate::channel::{
    bound, bounded_channel, buffered, feeds, hang_up, max_bound, try_recv, try_send,
    unbounded_channel, waiting,
};
use crossbeam::channel::{Receiver, Sender};
use vstd::prelude::*;

verus! {

/// What a frontier queue is, as a value.
pub struct QueueView {
    /// The pending URLs, oldest first.
    pub items: Seq<Seq<char>>,
    /// The capacity, `None` for a queue without one.
    pub bound: Option<nat>,
    /// Whether the queue still accepts submissions.
    pub open: bool,
}

impl QueueView {
    /// Whether one more URL fits.
    pub open spec fn has_room(self) -> bool {
        match self.bound {
            None => true,
            Some(b) => self.items.len() < b,
        }
    }

    /// A bounded queue has room for at least one URL and never holds more
    /// than its capacity.
    pub open spec fn inv(self) -> bool {
        match self.bound {
            None => true,
            Some(b) => 0 < b && self.items.len() <= b,
        }
    }

    /// The queue after `url` was accepted.
    pub open spec fn pushed(self, url: Seq<char>) -> QueueView {
        QueueView { items: self.items.push(url), ..self }
    }

    /// The queue after its oldest URL was taken.
    pub open spec fn popped(self) -> QueueView {
        QueueView { items: self.items.drop_first(), ..self }
    }

    /// The queue after it was closed.
    pub open spec fn closed(self) -> QueueView {
        QueueView { open: false, ..self }
    }
}

/// One operation on a queue.
pub enum QueueOp {
    /// A submission of this URL.
    Submit(Seq<char>),
    /// A consumer's request for the next URL.
    Next,
    /// The closing of the queue.
    Close,
}

impl QueueView {
    /// The queue after an operation. A submission that is refused, and a
    /// request that finds nothing, leave the queue as it is.
    pub open spec fn apply(self, op: QueueOp) -> QueueView {
        match op {
            QueueOp::Submit(url) => if self.open && self.has_room() {
                self.pushed(url)
            } else {
                self
            },
            QueueOp::Next => if self.items.len() > 0 {
                self.popped()
            } else {
                self
            },
            QueueOp::Close => self.closed(),
        }
    }

    /// The URL that an operation puts into the queue, if it puts one in.
    pub open spec fn accepts(self, op: QueueOp) -> Option<Seq<char>> {
        match op {
            QueueOp::Submit(url) => if self.open && self.has_room() {
                Some(url)
            } else {
                None
            },
            _ => None,
        }
    }

    /// The URL that an operation hands to a consumer, if it hands one out.
    pub open spec fn delivers(self, op: QueueOp) -> Option<Seq<char>> {
        match op {
            QueueOp::Next => if self.items.len() > 0 {
                Some(self.items[0])
            } else {
                None
            },
            _ => None,
        }
    }

    /// The queue after a sequence of operations.
    pub open spec fn after(self, ops: Seq<QueueOp>) -> QueueView
        decreases ops.len(),
    {
        if ops.len() == 0 {
            self
        } else {
            self.after(ops.drop_last()).apply(ops.last())
        }
    }

    /// The URLs that a sequence of operations puts into the queue, in their
    /// order.
    pub open spec fn accepted(self, ops: Seq<QueueOp>) -> Seq<Seq<char>>
        decreases ops.len(),
    {
        if ops.len() == 0 {
            Seq::empty()
        } else {
            let before = self.accepted(ops.drop_last());
            match self.after(ops.drop_last()).accepts(ops.last()) {
                Some(url) => before.push(url),
                None => before,
            }
        }
    }

    /// The URLs that a sequence of operations hands to consumers, in their
    /// order.
    pub open spec fn delivered(self, ops: Seq<QueueOp>) -> Seq<Seq<char>>
        decreases ops.len(),
    {
        if ops.len() == 0 {
            Seq::empty()
        } else {
            let before = self.delivered(ops.drop_last());
            match self.after(ops.drop_last()).delivers(ops.last()) {
                Some(url) => before.push(url),
                None => before,
            }
        }
    }
}

/// Nothing is lost and nothing comes twice. Whatever operations are made on
/// a queue, by however many producers and consumers, the URLs that it held
/// and those that it accepted are, in that order, the URLs that it handed
/// out followed by those that it still holds. So every URL that went in is
/// handed to one consumer, once, in the order of arrival, or is still
/// pending. The queue also keeps within its capacity.
pub proof fn law_queue_conserves(q: QueueView, ops: Seq<QueueOp>)
    requires
        q.inv(),
    ensures
        q.after(ops).inv(),
        q.items + q.accepted(ops) == q.delivered(ops) + q.after(ops).items,
    decreases ops.len(),
{
    if ops.len() == 0 {
        assert(q.items + q.accepted(ops) =~= q.delivered(ops) + q.after(ops).items);
    } else {
        let front = ops.drop_last();
        law_queue_conserves(q, front);
        let before = q.after(front);
        assert(q.items + q.accepted(ops) =~= q.delivered(ops) + q.after(ops).items) by {
            match ops.last() {
                QueueOp::Submit(url) => {
                    if before.open && before.has_room() {
                        assert((q.items + q.accepted(front)).push(url) =~= q.items + q.accepted(
                            front,
                        ).push(url));
                        assert((q.delivered(front) + before.items).push(url) =~= q.delivered(front)
                            + before.items.push(url));
                    }
                },
                QueueOp::Next => {
                    if before.items.len() > 0 {
                        assert(q.delivered(front) + before.items =~= q.delivered(front).push(
                            before.items[0],
                        ) + before.items.drop_first());
                    }
                },
                QueueOp::Close => {},
            }
        }
    }
}

/// Closing is for good. A closed queue stays closed whatever operations
/// follow, and accepts nothing any more.
pub proof fn law_closed_stays_closed(q: QueueView, ops: Seq<QueueOp>)
    requires
        !q.open,
    ensures
        !q.after(ops).open,
        q.accepted(ops) == Seq::<Seq<char>>::empty(),
    decreases ops.len(),
{
    if ops.len() > 0 {
        law_closed_stays_closed(q, ops.drop_last());
    }
}

/// Why a queue could not be made.
#[derive(Clone, Copy, Debug, PartialEq, Eq)]
pub enum QueueError {
    /// A capacity of zero: such a queue could never hold a URL.
    ZeroCapacity,
    /// A capacity so large that the size of its slots cannot be computed.
    CapacityTooLarge,
}

/// Why a URL was not accepted. Either way the URL comes back to the caller.
#[derive(Debug)]
pub enum SubmitError {
    /// The queue is at its capacity: the caller keeps the URL and submits it
    /// again once a URL has been taken out.
    Full(String),
    /// The queue has been closed and accepts nothing any more.
    Closed(String),
}

/// What a consumer gets from the queue.
#[derive(Debug)]
pub enum Next {
    /// The oldest pending URL, which has left the queue.
    Item(String),
    /// Nothing is pending, but the queue is open: more may come.
    Pending,
    /// Nothing is pending and the queue is closed: nothing will ever come.
    Exhausted,
}

/// The pending URLs of one crawl.
pub struct FrontierQueue {
    sender: Option<Sender<String>>,
    receiver: Receiver<String>,
    capacity: Option<usize>,
}

impl View for FrontierQueue {
    type V = QueueView;

    closed spec fn view(&self) -> QueueView {
        QueueView {
            items: buffered(self.receiver),
            bound: bound(self.receiver),
            open: self.sender is Some,
        }
    }
}

impl FrontierQueue {
    /// Well-formedness: the handles belong to one channel, and the queue
    /// keeps within its capacity.
    pub closed spec fn wf(&self) -> bool {
        &&& self@.inv()
        &&& match self.sender {
            Some(s) => feeds(s, self.receiver),
            None => true,
        }
        &&& match self.capacity {
            Some(c) => bound(self.receiver) == Some(c as nat),
            None => bound(self.receiver) is None,
        }
    }

    /// A well-formed queue satisfies the invariant of its view.
    pub proof fn lemma_inv(&self)
        requires
            self.wf(),
        ensures
            self@.inv(),
    {
    }

    /// An empty, open queue with the given capacity, or without one.
    pub fn new(capacity: Option<usize>) -> (made: Result<Self, QueueError>)
        ensures
            match made {
                Ok(q) => {
                    &&& q.wf()
                    &&& q@ == (QueueView {
                        items: Seq::empty(),
                        bound: match capacity {
                            Some(c) => Some(c as nat),
                            None => None,
                        },
                        open: true,
                    })
                    &&& capacity != Some(0usize)
                    &&& capacity is Some ==> capacity.unwrap() <= max_bound()
                },
                Err(QueueError::ZeroCapacity) => capacity == Some(0usize),
                Err(QueueError::CapacityTooLarge) => capacity is Some && capacity.unwrap()
                    > max_bound(),
            },
    {
        match capacity {
            None => {
                let (s, r) = unbounded_channel();
                Ok(FrontierQueue { sender: Some(s), receiver: r, capacity })
            },
            Some(cap) => {
                if cap == 0 {
                    Err(QueueError::ZeroCapacity)
                } else if cap > usize::MAX / 64 {
                    Err(QueueError::CapacityTooLarge)
                } else {
                    let (s, r) = bounded_channel(cap);
                    Ok(FrontierQueue { sender: Some(s), receiver: r, capacity })
                }
            },
        }
    }

    /// Enqueues `url` behind the pending ones. Fails, handing the URL back
    /// and changing nothing, exactly when the queue is closed or full.
    pub fn submit(&mut self, url: String) -> (done: Result<(), SubmitError>)
        requires
            old(self).wf(),
        ensures
            final(self).wf(),
            final(self)@ == old(self)@.apply(QueueOp::Submit(url@)),
            match done {
                Ok(_) => old(self)@.open && old(self)@.has_room() && final(self)@ == old(
                    self,
                )@.pushed(url@),
                Err(SubmitError::Closed(back)) => !old(self)@.open && back@ == url@ && final(self)@
                    == old(self)@,
                Err(SubmitError::Full(back)) => old(self)@.open && !old(self)@.has_room() && back@
                    == url@ && final(self)@ == old(self)@,
            },
    {
        match &self.sender {
            None => Err(SubmitError::Closed(url)),
            Some(s) => match try_send(s, &mut self.receiver, url) {
                Ok(_) => Ok(()),
                Err(back) => Err(SubmitError::Full(back)),
            },
        }
    }

    /// Takes the oldest pending URL. With nothing pending it reports whether
    /// more may still come.
    pub fn next(&mut self) -> (next: Next)
        requires
            old(self).wf(),
        ensures
            final(self).wf(),
            final(self)@ == old(self)@.apply(QueueOp::Next),
            match next {
                Next::Item(url) => old(self)@.items.len() > 0 && url@ == old(self)@.items[0]
                    && final(self)@ == old(self)@.popped(),
                Next::Pending => old(self)@.items.len() == 0 && old(self)@.open && final(self)@
                    == old(self)@,
                Next::Exhausted => old(self)@.items.len() == 0 && !old(self)@.open && final(self)@
                    == old(self)@,
            },
    {
        match try_recv(&mut self.receiver) {
            Some(url) => Next::Item(url),
            None => if self.sender.is_some() {
                Next::Pending
            } else {
                Next::Exhausted
            },
        }
    }

    /// Closes the queue for good: it accepts nothing any more, and its
    /// consumers find it exhausted once the pending URLs are taken.
    pub fn close(&mut self)
        requires
            old(self).wf(),
        ensures
            final(self).wf(),
            final(self)@ == old(self)@.apply(QueueOp::Close),
    {
        match self.sender.take() {
            Some(s) => hang_up(s, &mut self.receiver),
            None => {},
        }
    }

    /// The number of pending URLs.
    pub fn len(&self) -> (n: usize)
        requires
            self.wf(),
        ensures
            n == self@.items.len(),
    {
        waiting(&self.receiver)
    }

    /// Whether the queue is at its capacity.
    pub fn is_full(&self) -> (full: bool)
        requires
            self.wf(),
        ensures
            full == !self@.has_room(),
    {
        match self.capacity {
            None => false,
            Some(c) => waiting(&self.receiver) >= c,
        }
    }

    /// Whether the queue has been closed.
    pub fn is_closed(&self) -> (closed: bool)
        ensures
            closed == !self@.open,
    {
        self.sender.is_none()
    }

    /// The capacity the queue was made with.
    pub fn capacity(&self) -> (capacity: Option<usize>)
        requires
            self.wf(),
        ensures
            match capacity {
                Some(c) => self@.bound == Some(c as nat),
                None => self@.bound is None,
            },
    {
        self.capacity
    }
}

} // verus!
