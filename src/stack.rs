//! A last-in first-out stack over a singly linked chain of owned cells.
use vstd::prelude::*;

verus! {

/// A cell of the chain: an optional element and the rest of the chain.
pub struct Node<T> {
    pub element: Option<T>,
    pub next: Option<Box<Node<T>>>,
}

impl<T> Node<T> {
    /// The elements of the chain from this cell on, this cell's first.
    pub open spec fn items(self) -> Seq<Option<T>>
        decreases self,
    {
        seq![self.element] + match self.next {
            None => Seq::empty(),
            Some(n) => n.items(),
        }
    }
}

/// The elements of a chain that starts at `head`, if there is one.
pub open spec fn chain_items<T>(head: Option<Node<T>>) -> Seq<Option<T>> {
    match head {
        None => Seq::empty(),
        Some(n) => n.items(),
    }
}

/// A stack whose top is the head of its chain.
pub struct Stack<T> {
    head: Option<Node<T>>,
}

impl<T> View for Stack<T> {
    type V = Seq<Option<T>>;

    /// The elements from the top down.
    closed spec fn view(&self) -> Seq<Option<T>> {
        chain_items(self.head)
    }
}

impl<T> Stack<T> {
    /// A stack over the chain that starts at `head`.
    pub fn new(head: Option<Node<T>>) -> (s: Self)
        ensures
            s@ == chain_items(head),
    {
        Stack { head }
    }

    /// Takes the top element off: `None` on an empty stack, else what the
    /// top cell held.
    pub fn pop(&mut self) -> (r: Option<T>)
        ensures
            old(self)@.len() == 0 ==> r == None::<T> && final(self)@ == old(self)@,
            old(self)@.len() > 0 ==> r == old(self)@[0] && final(self)@
                == old(self)@.drop_first(),
    {
        match self.head.take() {
            None => None,
            Some(node) => {
                let Node { element, next } = node;
                self.head = match next {
                    None => None,
                    Some(boxed) => Some(*boxed),
                };
                assert(self@ =~= old(self)@.drop_first());
                element
            },
        }
    }

    /// Puts `element` on top.
    pub fn push(&mut self, element: T)
        ensures
            final(self)@ == seq![Some(element)] + old(self)@,
    {
        let next = match self.head.take() {
            None => None,
            Some(node) => Some(Box::new(node)),
        };
        self.head = Some(Node { element: Some(element), next });
        assert(self@ =~= seq![Some(element)] + old(self)@);
    }
}

} // verus!
