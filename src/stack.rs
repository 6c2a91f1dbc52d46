//! An owning singly-linked LIFO stack.
use vstd::prelude::*;

verus! {

/// One link of a stack's chain: an item and the rest of the chain.
pub struct Node<T> {
    item: T,
    next: Option<Box<Node<T>>>,
}

/// A last-in-first-out stack. Its view lists the items from the top down.
pub struct Stack<T> {
    head: Option<Box<Node<T>>>,
}

/// The items of a chain of nodes, from the given node to the tail.
spec fn chain<T>(link: Option<Box<Node<T>>>) -> Seq<T>
    decreases link,
{
    match link {
        None => Seq::empty(),
        Some(node) => seq![node.item] + chain(node.next),
    }
}

impl<T> View for Stack<T> {
    type V = Seq<T>;

    closed spec fn view(&self) -> Seq<T> {
        chain(self.head)
    }
}

impl<T> Stack<T> {
    /// An empty stack.
    pub fn new() -> (s: Self)
        ensures
            s@ == Seq::<T>::empty(),
    {
        Stack { head: None }
    }

    /// Whether the stack holds no item.
    pub fn empty(&self) -> (r: bool)
        ensures
            r == (self@.len() == 0),
    {
        match self.head {
            None => true,
            Some(_) => false,
        }
    }

    /// Puts `item` on top.
    pub fn push(&mut self, item: T)
        ensures
            final(self)@ == seq![item] + old(self)@,
    {
        let next = self.head.take();
        self.head = Some(Box::new(Node { item, next }));
    }

    /// Removes and returns the top item, or `None` when the stack is empty.
    pub fn pop(&mut self) -> (r: Option<T>)
        ensures
            old(self)@.len() == 0 ==> r is None && final(self)@ == old(self)@,
            old(self)@.len() > 0 ==> r == Some(old(self)@[0]) && final(self)@ == old(self)@.drop_first(),
    {
        let option = self.head.take();
        match option {
            Some(b) => {
                let node = *b;
                self.head = node.next;
                proof {
                    assert(old(self)@ =~= seq![node.item] + final(self)@);
                }
                Some(node.item)
            },
            None => None,
        }
    }

    /// Turns the stack into an iterator that pops its items from the top.
    pub fn into_iter(self) -> (it: IntoIter<T>)
        ensures
            it@ == self@,
    {
        IntoIter(self)
    }

    /// Borrows the items from the top down.
    pub fn iter(&self) -> (it: Iter<'_, T>)
        ensures
            it@ == self@,
    {
        match &self.head {
            Some(node) => Iter { next: Some(&**node) },
            None => Iter { next: None },
        }
    }

    /// Mutably borrows the items from the top down. When the borrow ends the
    /// stack holds what the iterator's items were left as.
    pub fn iter_mut(&mut self) -> (it: IterMut<'_, T>)
        ensures
            it@ == old(self)@,
            it.next is None <==> it@.len() == 0,
            final(self)@ == (match it.next {
                None => Seq::empty(),
                Some(node) => node_items(*final(node)),
            }),
    {
        match &mut self.head {
            Some(node) => IterMut { next: Some(&mut **node) },
            None => IterMut { next: None },
        }
    }

    /// Empties the stack one node at a time, so that a long chain is
    /// released without a call per node.
    fn release(&mut self)
        ensures
            final(self)@ == Seq::<T>::empty(),
        opens_invariants none
        no_unwind
    {
        let mut option: Option<Box<Node<T>>> = None;
        std::mem::swap(&mut self.head, &mut option);
        loop
            decreases chain_len(option),
        {
            match option {
                Some(mut b) => {
                    let mut next: Option<Box<Node<T>>> = None;
                    std::mem::swap(&mut b.next, &mut next);
                    option = next;
                },
                None => break,
            }
        }
    }

    /// The top item, left in place.
    pub fn peek(&self) -> (r: Option<&T>)
        ensures
            r == (if self@.len() == 0 { None } else { Some(&self@[0]) }),
    {
        match &self.head {
            Some(node) => Some(&node.item),
            None => None,
        }
    }

    /// The top item, left in place and open to change.
    pub fn peek_mut(&mut self) -> (r: Option<&mut T>)
        ensures
            old(self)@.len() == 0 ==> r is None && final(self)@ == old(self)@,
            old(self)@.len() > 0 ==> r is Some && *r.unwrap() == old(self)@[0]
                && final(self)@ == old(self)@.update(0, *final(r.unwrap())),
    {
        match &mut self.head {
            Some(node) => Some(&mut node.item),
            None => None,
        }
    }
}

/// A consuming iterator: each step pops the stack it holds.
pub struct IntoIter<T>(Stack<T>);

impl<T> View for IntoIter<T> {
    type V = Seq<T>;

    closed spec fn view(&self) -> Seq<T> {
        self.0@
    }
}

impl<T> IntoIter<T> {
    /// Pops the next item.
    pub fn next(&mut self) -> (r: Option<T>)
        ensures
            old(self)@.len() == 0 ==> r is None && final(self)@ == old(self)@,
            old(self)@.len() > 0 ==> r == Some(old(self)@[0]) && final(self)@ == old(self)@.drop_first(),
    {
        self.0.pop()
    }
}

/// A borrowing iterator over a stack, from the top down.
pub struct Iter<'a, T> {
    next: Option<&'a Node<T>>,
}

impl<'a, T> View for Iter<'a, T> {
    type V = Seq<T>;

    closed spec fn view(&self) -> Seq<T> {
        match self.next {
            None => Seq::empty(),
            Some(node) => node_items(*node),
        }
    }
}

impl<'a, T> Iter<'a, T> {
    /// The next item, from the top down.
    pub fn next(&mut self) -> (r: Option<&'a T>)
        ensures
            old(self)@.len() == 0 ==> r is None && final(self)@ == old(self)@,
            old(self)@.len() > 0 ==> r == Some(&old(self)@[0]) && final(self)@ == old(self)@.drop_first(),
    {
        match self.next {
            Some(node) => {
                match &node.next {
                    Some(b) => { self.next = Some(&**b); },
                    None => { self.next = None; },
                }
                proof {
                    assert(old(self)@ =~= seq![node.item] + final(self)@);
                }
                Some(&node.item)
            },
            None => None,
        }
    }
}

/// A mutably borrowing iterator over a stack, from the top down.
///
/// Its field is public so that contracts can speak of the value that the
/// borrowed node will hold once the borrow ends.
pub struct IterMut<'a, T> {
    pub next: Option<&'a mut Node<T>>,
}

impl<'a, T> View for IterMut<'a, T> {
    type V = Seq<T>;

    /// The items not yet handed out, as they are now.
    closed spec fn view(&self) -> Seq<T> {
        match self.next {
            None => Seq::empty(),
            Some(node) => node_items(*node),
        }
    }
}

impl<'a, T> IterMut<'a, T> {
    /// The next item, from the top down, open to change. What it is left as
    /// is what the stack holds there once the borrow ends.
    pub fn next(&mut self) -> (r: Option<&'a mut T>)
        ensures
            old(self)@.len() == 0 ==> r is None && final(self)@ == old(self)@
                && final(self).next is None,
            old(self)@.len() > 0 ==> r is Some && *r.unwrap() == old(self)@[0]
                && final(self)@ == old(self)@.drop_first()
                && (final(self).next is None <==> final(self)@.len() == 0)
                && node_items(*final(old(self).next.unwrap())) == seq![*final(r.unwrap())] + (
                match final(self).next {
                    None => Seq::empty(),
                    Some(node) => node_items(*final(node)),
                }),
    {
        match self.next.take() {
            Some(node) => {
                match &mut node.next {
                    Some(b) => { self.next = Some(&mut **b); },
                    None => { self.next = None; },
                }
                Some(&mut node.item)
            },
            None => None,
        }
    }
}

/// The items of a chain that starts at the given node.
pub closed spec fn node_items<T>(node: Node<T>) -> Seq<T> {
    seq![node.item] + chain(node.next)
}

/// The number of nodes in a chain.
spec fn chain_len<T>(link: Option<Box<Node<T>>>) -> nat
    decreases link,
{
    match link {
        None => 0,
        Some(node) => 1 + chain_len(node.next),
    }
}

/// Releases the chain through `release`, one node at a time, rather than by
/// nested drops of each node's successor.
impl<T> Drop for Stack<T> {
    fn drop(&mut self)
        opens_invariants none
        no_unwind
    {
        let stack: &mut Stack<T> = self;
        Stack::<T>::release(stack);
    }
}

} // verus!
