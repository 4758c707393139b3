//! A bounded log of recent events: pushing onto a full queue drops the
//! oldest entry.

use std::collections::VecDeque;
use vstd::prelude::*;

verus! {

/// A simple event queue that stores the last `capacity` events.
pub struct EventQueue<T> {
    queue: VecDeque<T>,
    capacity: usize,
}

impl<T> EventQueue<T> {
    /// The stored events, oldest first.
    pub closed spec fn contents(self) -> Seq<T> {
        self.queue@
    }

    /// The bound the queue was created with.
    pub closed spec fn cap(self) -> nat {
        self.capacity as nat
    }

    /// Create a new event queue with the given capacity.
    pub fn new(capacity: usize) -> (r: Self)
        ensures
            r.contents() == Seq::<T>::empty(),
            r.cap() == capacity,
    {
        EventQueue { queue: VecDeque::with_capacity(capacity), capacity }
    }

    /// Push a new event to the queue. If the queue is full, the oldest event
    /// will be removed.
    pub fn push(&mut self, event: T)
        ensures
            final(self).cap() == old(self).cap(),
            old(self).contents().len() == old(self).cap() && old(self).contents().len() > 0
                ==> final(self).contents() == old(self).contents().drop_first().push(event),
            !(old(self).contents().len() == old(self).cap() && old(self).contents().len() > 0)
                ==> final(self).contents() == old(self).contents().push(event),
    {
        if self.queue.len() == self.capacity {
            self.queue.pop_front();
        }
        self.queue.push_back(event);
    }

    /// Get all events in the queue, oldest first.
    pub fn get(&self) -> (r: Vec<&T>)
        ensures
            r@.len() == self.contents().len(),
            forall|i: int| 0 <= i < r@.len() ==> r@[i] == self.contents()[i],
    {
        let n = self.queue.len();
        let mut r: Vec<&T> = Vec::new();
        let mut i: usize = 0;
        while i < n
            invariant
                i <= n,
                n == self.contents().len(),
                self.contents() == self.queue@,
                r@.len() == i,
                forall|j: int| 0 <= j < i ==> r@[j] == self.contents()[j],
            decreases n - i,
        {
            r.push(&self.queue[i]);
            i = i + 1;
        }
        r
    }

    /// Get the number of events in the queue.
    pub fn len(&self) -> (r: usize)
        ensures
            r == self.contents().len(),
    {
        self.queue.len()
    }
}

} // verus!
