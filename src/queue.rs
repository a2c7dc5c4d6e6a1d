//! A first-in first-out queue over a contiguous buffer.
//!
//! Dequeued entries stay in the buffer behind a read position until enough
//! of them have gathered; then the pending entries move to a fresh buffer.
use vstd::prelude::*;

verus! {

/// How many consumed entries the buffer may hold before it is compacted.
pub const COMPACT_AFTER: usize = 1000;

/// A queue of copyable items.
pub struct Queue<T> {
    buff: Vec<T>,
    current_element: usize,
}

impl<T> View for Queue<T> {
    type V = Seq<T>;

    /// The pending items, the one to leave next first.
    closed spec fn view(&self) -> Seq<T> {
        self.buff@.subrange(self.current_element as int, self.buff@.len() as int)
    }
}

impl<T: Copy> Queue<T> {
    /// The read position never passes the end of the buffer.
    pub closed spec fn well_formed(&self) -> bool {
        self.current_element <= self.buff@.len()
    }

    /// An empty queue.
    pub fn new() -> (q: Self)
        ensures
            q.well_formed(),
            q@ == Seq::<T>::empty(),
    {
        Queue { buff: Vec::with_capacity(100), current_element: 0 }
    }

    /// Whether no item is pending.
    pub fn is_empty(&self) -> (r: bool)
        requires
            self.well_formed(),
        ensures
            r == (self@.len() == 0),
    {
        self.current_element == self.buff.len()
    }

    /// Puts `element` at the back.
    pub fn enqueue(&mut self, element: T)
        requires
            old(self).well_formed(),
        ensures
            final(self).well_formed(),
            final(self)@ == old(self)@.push(element),
    {
        self.buff.push(element);
        assert(self@ =~= old(self)@.push(element));
    }

    /// Takes the front item, or gives `None` when nothing is pending.
    pub fn dequeue(&mut self) -> (r: Option<T>)
        requires
            old(self).well_formed(),
        ensures
            final(self).well_formed(),
            old(self)@.len() == 0 ==> r == None::<T> && final(self)@ == old(self)@,
            old(self)@.len() > 0 ==> r == Some(old(self)@[0]) && final(self)@
                == old(self)@.drop_first(),
    {
        if self.is_empty() {
            return None;
        }
        let size = self.buff.len();
        assert(self@.len() == size - self.current_element);
        let result = self.buff[self.current_element];
        self.current_element = self.current_element + 1;
        assert(self@ =~= old(self)@.drop_first());
        if self.current_element > COMPACT_AFTER {
            let ghost pending = self@;
            let mut v: Vec<T> = Vec::with_capacity(size - self.current_element);
            let mut i: usize = self.current_element;
            while i < size
                invariant
                    self.current_element <= i <= size,
                    size == self.buff@.len(),
                    pending == self@,
                    v@ =~= self.buff@.subrange(self.current_element as int, i as int),
                decreases size - i,
            {
                v.push(self.buff[i]);
                i = i + 1;
            }
            self.buff = v;
            self.current_element = 0;
            assert(self@ =~= pending);
        }
        Some(result)
    }
}

} // verus!
