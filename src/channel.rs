//! Single-producer single-consumer FIFO channels.
use std::collections::VecDeque;
use vstd::prelude::*;

verus! {

/// Why a payload could not be sent.
#[derive(Debug, Clone, Copy, PartialEq, Eq)]
pub enum SendError {
    /// A bounded channel is at capacity: the sender must wait.
    Full,
    /// The receiver was dropped.
    Disconnected,
}

/// Why no payload could be received.
#[derive(Debug, Clone, Copy, PartialEq, Eq)]
pub enum RecvError {
    /// Nothing is queued yet: the receiver must wait.
    Empty,
    /// Nothing is queued and the sender was dropped.
    Closed,
}

/// A FIFO queue between one sender and one receiver, bounded or not.
///
/// Beside the queue it records, as ghost state, every payload ever sent and
/// every payload ever received.
pub struct Channel<T> {
    queue: VecDeque<T>,
    capacity: Option<usize>,
    sender_open: bool,
    receiver_open: bool,
    sent: Ghost<Seq<T>>,
    received: Ghost<Seq<T>>,
}

impl<T> View for Channel<T> {
    type V = Seq<T>;

    /// The payloads in flight, oldest first.
    closed spec fn view(&self) -> Seq<T> {
        self.queue@
    }
}

impl<T> Channel<T> {
    /// Every payload handed to the channel so far, in order.
    pub closed spec fn sent(&self) -> Seq<T> {
        self.sent@
    }

    /// Every payload taken out of the channel so far, in order.
    pub closed spec fn received(&self) -> Seq<T> {
        self.received@
    }

    pub closed spec fn spec_capacity(&self) -> Option<usize> {
        self.capacity
    }

    pub closed spec fn spec_sender_open(&self) -> bool {
        self.sender_open
    }

    pub closed spec fn spec_receiver_open(&self) -> bool {
        self.receiver_open
    }

    /// What was received followed by what is queued is what was sent, and a
    /// bounded channel never holds more than its capacity.
    pub closed spec fn wf(&self) -> bool {
        &&& self.sent@ == self.received@ + self.queue@
        &&& (self.capacity matches Some(c) ==> self.queue@.len() <= c)
    }

    pub open spec fn spec_is_full(&self) -> bool {
        self.spec_capacity() matches Some(c) && self@.len() >= c
    }

    /// A channel that holds at most `capacity` payloads at a time.
    pub fn bounded(capacity: usize) -> (r: Self)
        ensures
            r.wf(),
            r@ == Seq::<T>::empty(),
            r.sent() == Seq::<T>::empty(),
            r.received() == Seq::<T>::empty(),
            r.spec_capacity() == Some(capacity),
            r.spec_sender_open(),
            r.spec_receiver_open(),
    {
        Channel {
            queue: VecDeque::new(),
            capacity: Some(capacity),
            sender_open: true,
            receiver_open: true,
            sent: Ghost(Seq::empty()),
            received: Ghost(Seq::empty()),
        }
    }

    /// A channel whose sender never waits.
    pub fn unbounded() -> (r: Self)
        ensures
            r.wf(),
            r@ == Seq::<T>::empty(),
            r.sent() == Seq::<T>::empty(),
            r.received() == Seq::<T>::empty(),
            r.spec_capacity() == None::<usize>,
            r.spec_sender_open(),
            r.spec_receiver_open(),
    {
        Channel {
            queue: VecDeque::new(),
            capacity: None,
            sender_open: true,
            receiver_open: true,
            sent: Ghost(Seq::empty()),
            received: Ghost(Seq::empty()),
        }
    }

    /// Number of payloads in flight.
    pub fn len(&self) -> (r: usize)
        ensures
            r == self@.len(),
    {
        self.queue.len()
    }

    pub fn is_empty(&self) -> (r: bool)
        ensures
            r == (self@.len() == 0),
    {
        self.queue.len() == 0
    }

    pub fn is_full(&self) -> (r: bool)
        ensures
            r == self.spec_is_full(),
    {
        match self.capacity {
            Some(c) => self.queue.len() >= c,
            None => false,
        }
    }

    pub fn capacity(&self) -> (r: Option<usize>)
        ensures
            r == self.spec_capacity(),
    {
        self.capacity
    }

    pub fn sender_open(&self) -> (r: bool)
        ensures
            r == self.spec_sender_open(),
    {
        self.sender_open
    }

    pub fn receiver_open(&self) -> (r: bool)
        ensures
            r == self.spec_receiver_open(),
    {
        self.receiver_open
    }

    /// Queues `value` behind the payloads in flight, unless the receiver is
    /// gone or a bounded channel is full.
    pub fn try_send(&mut self, value: T) -> (r: Result<(), SendError>)
        requires
            old(self).wf(),
        ensures
            final(self).wf(),
            final(self).spec_capacity() == old(self).spec_capacity(),
            final(self).spec_sender_open() == old(self).spec_sender_open(),
            final(self).spec_receiver_open() == old(self).spec_receiver_open(),
            final(self).received() == old(self).received(),
            !old(self).spec_receiver_open() ==> r == Err::<(), SendError>(SendError::Disconnected),
            old(self).spec_receiver_open() && old(self).spec_is_full() ==> r == Err::<(), SendError>(SendError::Full),
            old(self).spec_receiver_open() && !old(self).spec_is_full() ==> r == Ok::<(), SendError>(()),
            r is Ok ==> final(self)@ == old(self)@.push(value) && final(self).sent() == old(self).sent().push(value),
            r is Err ==> *final(self) == *old(self),
    {
        if !self.receiver_open {
            return Err(SendError::Disconnected);
        }
        if self.is_full() {
            return Err(SendError::Full);
        }
        self.queue.push_back(value);
        proof {
            self.sent@ = self.sent@.push(value);
            assert(self.sent@ == self.received@ + self.queue@);
        }
        Ok(())
    }

    /// Takes the oldest payload in flight; once the sender is gone and the
    /// queue is drained, reports the channel closed.
    pub fn try_recv(&mut self) -> (r: Result<T, RecvError>)
        requires
            old(self).wf(),
        ensures
            final(self).wf(),
            final(self).spec_capacity() == old(self).spec_capacity(),
            final(self).spec_sender_open() == old(self).spec_sender_open(),
            final(self).spec_receiver_open() == old(self).spec_receiver_open(),
            final(self).sent() == old(self).sent(),
            old(self)@.len() > 0 ==> r == Ok::<T, RecvError>(old(self)@[0]) && final(self)@
                == old(self)@.drop_first() && final(self).received() == old(self).received().push(
                old(self)@[0]),
            old(self)@.len() == 0 && old(self).spec_sender_open() ==> r == Err::<T, RecvError>(
                RecvError::Empty),
            old(self)@.len() == 0 && !old(self).spec_sender_open() ==> r == Err::<T, RecvError>(
                RecvError::Closed),
            r is Err ==> *final(self) == *old(self),
            r == Err::<T, RecvError>(RecvError::Closed) ==> final(self).received() == final(self).sent(),
    {
        if self.queue.len() == 0 {
            if self.sender_open {
                return Err(RecvError::Empty);
            } else {
                proof {
                    assert(self.sent@ == self.received@ + self.queue@);
                    assert(self.received@ + self.queue@ =~= self.received@);
                }
                return Err(RecvError::Closed);
            }
        }
        let ghost q0 = self.queue@;
        let v = self.queue.pop_front();
        match v {
            Some(x) => {
                proof {
                    self.received@ = self.received@.push(x);
                    assert(self.received@ + self.queue@ =~= old(self).received@ + q0);
                }
                Ok(x)
            },
            None => Err(RecvError::Empty),
        }
    }

    /// Drops the sending end: once drained, the receiver sees the channel closed.
    pub fn close_sender(&mut self)
        requires
            old(self).wf(),
        ensures
            final(self).wf(),
            final(self)@ == old(self)@,
            final(self).sent() == old(self).sent(),
            final(self).received() == old(self).received(),
            final(self).spec_capacity() == old(self).spec_capacity(),
            !final(self).spec_sender_open(),
            final(self).spec_receiver_open() == old(self).spec_receiver_open(),
    {
        self.sender_open = false;
    }

    /// Drops the receiving end: later sends report the receiver disconnected.
    pub fn close_receiver(&mut self)
        requires
            old(self).wf(),
        ensures
            final(self).wf(),
            final(self)@ == old(self)@,
            final(self).sent() == old(self).sent(),
            final(self).received() == old(self).received(),
            final(self).spec_capacity() == old(self).spec_capacity(),
            final(self).spec_sender_open() == old(self).spec_sender_open(),
            !final(self).spec_receiver_open(),
    {
        self.receiver_open = false;
    }
}

/// Per edge, the payloads received are exactly the payloads sent, in the
/// order they were sent, up to those still in flight.
pub proof fn lemma_fifo<T>(ch: &Channel<T>)
    requires
        ch.wf(),
    ensures
        ch.received().len() + ch@.len() == ch.sent().len(),
        forall|k: int| 0 <= k < ch.received().len() ==> ch.received()[k] == ch.sent()[k],
        forall|k: int| 0 <= k < ch@.len() ==> ch@[k] == ch.sent()[ch.received().len() + k],
        ch@.len() == 0 ==> ch.received() == ch.sent(),
{
    assert(ch.sent() == ch.received() + ch@) by {
        reveal(Channel::wf);
    }
    if ch@.len() == 0 {
        assert(ch.received() + ch@ =~= ch.received());
    }
}

} // verus!
