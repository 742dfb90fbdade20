//! The one channel abstraction every component pair communicates over.
//!
//! Components never call each other: they publish typed messages on
//! dedicated unbounded queues, one consumer per queue, delivered in send
//! order. Being unbounded, a send never blocks and never fails — no
//! backpressure is enforced at this layer, and unbounded growth under a
//! prolonged consumer stall is an accepted, documented operational risk
//! rather than something guarded against here. Keeping the tradeoff inside
//! this one type leaves it swappable for a bounded variant without touching
//! component logic.

use vstd::prelude::*;

verus! {

/// An unbounded, ordered, multi-value message queue. The view is the
/// sequence of messages sent and not yet received, oldest first.
pub struct MessageQueue<T> {
    items: Vec<T>,
}

impl<T> View for MessageQueue<T> {
    type V = Seq<T>;

    closed spec fn view(&self) -> Seq<T> {
        self.items@
    }
}

impl<T> MessageQueue<T> {
    /// A fresh, empty queue.
    pub fn new() -> (q: Self)
        ensures
            q@ == Seq::<T>::empty(),
    {
        MessageQueue { items: Vec::new() }
    }

    /// Publishes a message. Never blocks and never fails: the queue grows
    /// without bound instead.
    pub fn send(&mut self, message: T)
        ensures
            final(self)@ == old(self)@.push(message),
    {
        self.items.push(message);
    }

    /// Takes the oldest message still queued, if any: messages come out in
    /// the order they were sent.
    pub fn receive(&mut self) -> (r: Option<T>)
        ensures
            old(self)@.len() == 0 ==> r is None && final(self)@ == old(self)@,
            old(self)@.len() > 0 ==> r == Some(old(self)@[0]) && final(self)@ == old(
                self,
            )@.drop_first(),
    {
        if self.items.len() == 0 {
            None
        } else {
            let m = self.items.remove(0);
            proof {
                assert(old(self)@.remove(0) =~= old(self)@.drop_first());
            }
            Some(m)
        }
    }

    /// How many messages are queued and not yet received.
    pub fn len(&self) -> (n: usize)
        ensures
            n == self@.len(),
    {
        self.items.len()
    }
}

} // verus!
