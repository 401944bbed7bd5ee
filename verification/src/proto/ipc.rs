//! Bounded message queues between tasks.

use vstd::prelude::*;
use std::collections::VecDeque;

verus! {

/// One message: who sent it, and its bytes.
#[derive(Debug)]
pub struct Message {
    pub sender: String,
    pub payload: Vec<u8>,
}

/// A FIFO with a fixed message limit.
#[derive(Debug)]
pub struct MessageQueue {
    queue: VecDeque<Message>,
    limit: usize,
}

impl MessageQueue {
    pub closed spec fn spec_queue(&self) -> Seq<Message> {
        self.queue@
    }

    pub closed spec fn spec_limit(&self) -> usize {
        self.limit
    }

    pub fn new(limit: usize) -> (r: Self)
        ensures
            r.spec_queue() == Seq::<Message>::empty(),
            r.spec_limit() == limit,
    {
        MessageQueue { queue: VecDeque::new(), limit }
    }

    /// Appends at the back; a full queue rejects the message.
    pub fn enqueue(&mut self, msg: Message) -> (r: Result<(), &'static str>)
        ensures
            final(self).spec_limit() == old(self).spec_limit(),
            old(self).spec_queue().len() >= old(self).spec_limit() ==> r is Err && final(self).spec_queue() == old(self).spec_queue(),
            old(self).spec_queue().len() < old(self).spec_limit() ==> r is Ok && final(self).spec_queue() == old(self).spec_queue().push(msg),
    {
        if self.queue.len() >= self.limit {
            return Err("Message queue full");
        }
        self.queue.push_back(msg);
        Ok(())
    }

    /// Takes from the front, oldest first.
    pub fn dequeue(&mut self) -> (r: Option<Message>)
        ensures
            final(self).spec_limit() == old(self).spec_limit(),
            old(self).spec_queue().len() == 0 ==> r is None && final(self).spec_queue() == old(self).spec_queue(),
            old(self).spec_queue().len() > 0 ==> r == Some(old(self).spec_queue()[0]) && final(self).spec_queue() == old(self).spec_queue().skip(1),
    {
        self.queue.pop_front()
    }
}

} // verus!
