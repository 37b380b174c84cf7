//! A list with a fixed capacity.

use vstd::prelude::*;

verus! {

/// An ordered list that holds at most `capacity` items.
///
/// Adding to a full list is refused; nothing is ever dropped silently.
#[derive(Debug)]
pub struct List<T> {
    /// The items, in the order in which they were added.
    pub items: Vec<T>,
    /// The most items the list may hold.
    pub capacity: usize,
}

impl<T> View for List<T> {
    type V = Seq<T>;

    open spec fn view(&self) -> Seq<T> {
        self.items@
    }
}

impl<T> List<T> {
    /// The list holds no more than its capacity.
    pub open spec fn wf(&self) -> bool {
        self.items@.len() <= self.capacity
    }

    /// An empty list that may hold `capacity` items.
    pub fn new(capacity: usize) -> (r: List<T>)
        ensures
            r.wf(),
            r.capacity == capacity,
            r@ == Seq::<T>::empty(),
    {
        List { items: Vec::new(), capacity }
    }

    /// The number of items.
    pub fn len(&self) -> (n: usize)
        ensures
            n == self@.len(),
    {
        self.items.len()
    }

    /// Whether the list holds as many items as it may.
    pub fn is_full(&self) -> (r: bool)
        requires
            self.wf(),
        ensures
            r == (self@.len() == self.capacity),
    {
        self.items.len() >= self.capacity
    }

    /// The `i`-th item.
    pub fn get(&self, i: usize) -> (r: &T)
        requires
            i < self@.len(),
        ensures
            *r == self@[i as int],
    {
        &self.items[i]
    }

    /// Adds `item` at the end, unless the list is full.  Returns whether the
    /// item was added.
    pub fn append(&mut self, item: T) -> (added: bool)
        requires
            old(self).wf(),
        ensures
            final(self).wf(),
            final(self).capacity == old(self).capacity,
            added == (old(self)@.len() < old(self).capacity),
            added ==> final(self)@ == old(self)@.push(item),
            !added ==> final(self)@ == old(self)@,
    {
        if self.items.len() < self.capacity {
            self.items.push(item);
            true
        } else {
            false
        }
    }
}

} // verus!
