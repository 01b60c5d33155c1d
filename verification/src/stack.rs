//! Last-in-first-out stack over owned linked nodes; the head node is the top
//! of the stack.

use vstd::prelude::*;

verus! {

pub struct Node<T> {
    pub value: T,
    pub next: Option<Box<Node<T>>>,
}

/// The sequence of values stored in a chain of nodes, head first.
pub closed spec fn list_view<T>(n: Option<Box<Node<T>>>) -> Seq<T>
    decreases n,
{
    match n {
        None => Seq::empty(),
        Some(b) => seq![b.value] + list_view(b.next),
    }
}

impl<T> Node<T> {
    /// Creates a node holding the value, chained before `next`.
    pub fn new(value: T, next: Option<Box<Node<T>>>) -> (r: Self)
        ensures
            r.value == value,
            r.next == next,
    {
        Node { value, next }
    }
}

pub struct Stack<T> {
    head: Option<Box<Node<T>>>,
}

impl<T> View for Stack<T> {
    type V = Seq<T>;

    /// The stack abstracts to the sequence of its values, top first.
    closed spec fn view(&self) -> Seq<T> {
        list_view(self.head)
    }
}

impl<T> Stack<T> {
    /// Creates an empty stack.
    pub fn new() -> (r: Self)
        ensures
            r@ == Seq::<T>::empty(),
    {
        Stack { head: None }
    }

    /// Removes and returns the top value.
    pub fn pop(&mut self) -> (r: Option<T>)
        ensures
            match r {
                Some(x) => old(self)@.len() > 0 && x == old(self)@[0] && final(self)@ == old(
                    self,
                )@.drop_first(),
                None => old(self)@.len() == 0 && final(self)@ == old(self)@,
            },
    {
        match self.head.take() {
            Some(boxed) => {
                let node = *boxed;
                self.head = node.next;
                proof {
                    assert(old(self)@ =~= seq![node.value] + final(self)@);
                    assert(final(self)@ =~= old(self)@.drop_first());
                }
                Some(node.value)
            },
            None => None,
        }
    }

    /// Pushes a value on top of the stack.
    pub fn push(&mut self, value: T)
        ensures
            final(self)@ == seq![value] + old(self)@,
            final(self)@.len() == old(self)@.len() + 1,
    {
        let old_head = self.head.take();
        let new_head = Box::new(Node::new(value, old_head));
        self.head = Some(new_head);
    }

    /// Counts the values on the stack by walking the chain of nodes.
    pub fn len(&self) -> (r: u32)
        requires
            self@.len() <= u32::MAX,
        ensures
            r == self@.len(),
    {
        let mut count: u32 = 0;
        let mut cur = &self.head;
        loop
            invariant
                self@.len() <= u32::MAX,
                count + list_view(*cur).len() == self@.len(),
            ensures
                count == self@.len(),
            decreases list_view(*cur).len(),
        {
            match cur {
                Some(node) => {
                    cur = &node.next;
                    count = count + 1;
                },
                None => {
                    break ;
                },
            }
        }
        count
    }

    /// A reference to the top value.
    pub fn peek(&self) -> (r: Option<&T>)
        ensures
            match r {
                Some(x) => self@.len() > 0 && *x == self@[0],
                None => self@.len() == 0,
            },
    {
        match &self.head {
            Some(node) => Some(&node.value),
            None => None,
        }
    }

    /// Whether the stack holds no value.
    pub fn is_empty(&self) -> (r: bool)
        ensures
            r == (self@.len() == 0),
    {
        self.head.is_none()
    }
}

} // verus!
