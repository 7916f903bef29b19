//! A generic LIFO stack over exclusively owned nodes.
//!
//! Besides pushing and popping, the stack offers borrowed views of its top
//! element (shared and exclusive) and iteration by value or by reference.
//! The abstract value is the sequence of elements from the top down.

use vstd::prelude::*;

verus! {

type Link<T> = Option<Box<Node<T>>>;

struct Node<T> {
    elem: T,
    next: Link<T>,
}

/// The elements reachable from a link, top of the stack first.
spec fn link_rep<T>(link: Link<T>) -> Seq<T>
    decreases link,
{
    match link {
        None => Seq::empty(),
        Some(node) => seq![node.elem] + link_rep(node.next),
    }
}

/// A stack holding a chain of nodes starting at `head`.
pub struct List<T> {
    head: Link<T>,
}

impl<T> View for List<T> {
    type V = Seq<T>;

    closed spec fn view(&self) -> Seq<T> {
        link_rep(self.head)
    }
}

impl<T> List<T> {
    pub fn new() -> (list: List<T>)
        ensures
            list@ == Seq::<T>::empty(),
    {
        List { head: None }
    }

    /// Detaches the whole chain from the list, leaving it empty.
    fn pop_node(&mut self) -> (link: Link<T>)
        ensures
            link_rep(link) == old(self)@,
            final(self)@ == Seq::<T>::empty(),
    {
        self.head.take()
    }

    /// Pushes an element on top of the stack.
    pub fn push(&mut self, elem: T)
        ensures
            final(self)@ == seq![elem] + old(self)@,
    {
        let new_node = Box::new(Node { elem, next: self.pop_node() });
        self.head = Some(new_node);
    }

    /// Pops the top element; `None` exactly when the stack is empty.
    pub fn pop(&mut self) -> (elem: Option<T>)
        ensures
            match elem {
                None => old(self)@.len() == 0 && final(self)@ == old(self)@,
                Some(e) => old(self)@.len() > 0 && e == old(self)@[0] && final(self)@ == old(
                    self,
                )@.drop_first(),
            },
    {
        match self.pop_node() {
            None => None,
            Some(node) => {
                let node = *node;
                self.head = node.next;
                proof {
                    assert(self@ =~= old(self)@.drop_first());
                }
                Some(node.elem)
            },
        }
    }

    /// Borrows the top element; `None` exactly when the stack is empty.
    pub fn peek(&self) -> (elem: Option<&T>)
        ensures
            match elem {
                None => self@.len() == 0,
                Some(e) => self@.len() > 0 && *e == self@[0],
            },
    {
        match &self.head {
            None => None,
            Some(node) => Some(&node.elem),
        }
    }

    /// Borrows the top element exclusively; whatever the caller writes
    /// through the borrow replaces the top of the stack.
    pub fn peek_mut(&mut self) -> (elem: Option<&mut T>)
        ensures
            match elem {
                None => old(self)@.len() == 0 && final(self)@ == old(self)@,
                Some(e) => old(self)@.len() > 0 && *e == old(self)@[0] && final(self)@ == old(
                    self,
                )@.update(0, *final(e)),
            },
    {
        match &mut self.head {
            None => None,
            Some(node) => Some(&mut node.elem),
        }
    }

    /// Turns the stack into a draining iterator over its elements.
    pub fn into_iter(self) -> (iter: IntoIter<T>)
        ensures
            iter@ == self@,
    {
        IntoIter(self)
    }

    /// An iterator over shared borrows of the elements, top first.
    pub fn iter(&self) -> (iter: Iter<'_, T>)
        ensures
            iter@ == self@,
    {
        Iter {
            next: match &self.head {
                None => None,
                Some(node) => Some(&**node),
            },
        }
    }

    /// An iterator over exclusive borrows of the elements, top first. What
    /// the caller writes through the borrows replaces the elements in
    /// place; the iterator grants access to each node exactly once.
    pub fn iter_mut(&mut self) -> (iter: IterMut<'_, T>)
        ensures
            iter.remaining() == old(self)@,
    {
        IterMut {
            next: match &mut self.head {
                None => None,
                Some(node) => Some(&mut **node),
            },
        }
    }
}

impl<T> Default for List<T> {
    fn default() -> (list: Self)
        ensures
            list@ == Seq::<T>::empty(),
    {
        List::new()
    }
}

impl<T> Drop for List<T> {
    /// Releases the chain iteratively, so that discarding a long stack
    /// never nests one node's release inside another's.
    fn drop(&mut self)
        opens_invariants none
        no_unwind
    {
        let mut cur_link: Link<T> = None;
        core::mem::swap(&mut self.head, &mut cur_link);
        loop
            decreases link_rep(cur_link).len(),
        {
            match cur_link {
                None => {
                    break ;
                },
                Some(node) => {
                    let node = *node;
                    cur_link = node.next;
                },
            }
        }
    }
}

/// Iterates over shared borrows of a stack's elements, top first.
pub struct Iter<'a, T> {
    next: Option<&'a Node<T>>,
}

impl<'a, T> View for Iter<'a, T> {
    type V = Seq<T>;

    closed spec fn view(&self) -> Seq<T> {
        match self.next {
            None => Seq::empty(),
            Some(node) => seq![node.elem] + link_rep(node.next),
        }
    }
}

impl<'a, T> Iter<'a, T> {
    /// Borrows the next element; `None` exactly when the iterator is done.
    pub fn next(&mut self) -> (elem: Option<&'a T>)
        ensures
            match elem {
                None => old(self)@.len() == 0 && final(self)@ == old(self)@,
                Some(e) => old(self)@.len() > 0 && *e == old(self)@[0] && final(self)@ == old(
                    self,
                )@.drop_first(),
            },
    {
        match self.next {
            None => None,
            Some(node) => {
                self.next = match &node.next {
                    None => None,
                    Some(next_node) => Some(&**next_node),
                };
                proof {
                    assert(self@ =~= old(self)@.drop_first());
                }
                Some(&node.elem)
            },
        }
    }
}

/// Drains a stack by value, top first.
pub struct IntoIter<T>(List<T>);

impl<T> View for IntoIter<T> {
    type V = Seq<T>;

    closed spec fn view(&self) -> Seq<T> {
        self.0@
    }
}

impl<T> IntoIter<T> {
    /// Pops the next element; `None` exactly when the stack is drained.
    pub fn next(&mut self) -> (elem: Option<T>)
        ensures
            match elem {
                None => old(self)@.len() == 0 && final(self)@ == old(self)@,
                Some(e) => old(self)@.len() > 0 && e == old(self)@[0] && final(self)@ == old(
                    self,
                )@.drop_first(),
            },
    {
        self.0.pop()
    }
}

/// Iterates over exclusive borrows of a stack's elements, top first.
pub struct IterMut<'a, T> {
    next: Option<&'a mut Node<T>>,
}

impl<'a, T> IterMut<'a, T> {
    /// The elements still to be visited, as they stand now.
    pub closed spec fn remaining(&self) -> Seq<T> {
        match self.next {
            None => Seq::empty(),
            Some(node) => seq![node.elem] + link_rep(node.next),
        }
    }

    /// Borrows the next element exclusively; `None` exactly when the
    /// iterator is done.
    pub fn next(&mut self) -> (elem: Option<&mut T>)
        ensures
            match elem {
                None => old(self).remaining().len() == 0 && final(self).remaining().len() == 0,
                Some(e) => old(self).remaining().len() > 0 && *e == old(self).remaining()[0]
                    && final(self).remaining() == old(self).remaining().drop_first(),
            },
    {
        match self.next.take() {
            None => None,
            Some(node) => {
                self.next = match &mut node.next {
                    None => None,
                    Some(next_node) => Some(&mut **next_node),
                };
                Some(&mut node.elem)
            },
        }
    }
}

} // verus!
