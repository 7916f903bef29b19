//! An immutable list that shares its tail structurally.
//!
//! Nodes are held through shared, reference-counted handles, so several
//! lists may point into the same chain: appending builds one new node in
//! front of an existing list, and taking the tail borrows the rest without
//! copying. No node is ever mutated after it is built.

use std::rc::Rc;
use vstd::prelude::*;

verus! {

type Link<T> = Option<Rc<Node<T>>>;

struct Node<T> {
    elem: T,
    next: Link<T>,
}

/// The elements reachable from a link, front of the list first.
spec fn link_rep<T>(link: Link<T>) -> Seq<T>
    decreases link,
{
    match link {
        None => Seq::empty(),
        Some(node) => seq![node.elem] + link_rep(node.next),
    }
}

/// A persistent list: a shared handle to the front of a chain of nodes.
pub struct List<T> {
    head: Link<T>,
}

impl<T> View for List<T> {
    type V = Seq<T>;

    closed spec fn view(&self) -> Seq<T> {
        link_rep(self.head)
    }
}

impl<T> List<T> {
    pub fn new() -> (list: List<T>)
        ensures
            list@ == Seq::<T>::empty(),
    {
        List { head: None }
    }

    /// Returns a new list with `elem` in front of this one; the rest of the
    /// chain is shared with `self`, not copied.
    pub fn append(&self, elem: T) -> (list: List<T>)
        ensures
            list@ == seq![elem] + self@,
    {
        List {
            head: Some(
                Rc::new(
                    Node {
                        elem,
                        next: match &self.head {
                            None => None,
                            Some(node) => Some(node.clone()),
                        },
                    },
                ),
            ),
        }
    }

    /// Returns the list without its first element; the empty list stays
    /// empty. The returned list shares its whole chain with `self`.
    pub fn tail(&self) -> (list: List<T>)
        ensures
            self@.len() == 0 ==> list@ == Seq::<T>::empty(),
            self@.len() > 0 ==> list@ == self@.drop_first(),
    {
        List {
            head: match &self.head {
                None => None,
                Some(node) => match &node.next {
                    None => None,
                    Some(next_node) => Some(next_node.clone()),
                },
            },
        }
    }

    /// Borrows the first element; `None` exactly when the list is empty.
    pub fn head(&self) -> (elem: Option<&T>)
        ensures
            match elem {
                None => self@.len() == 0,
                Some(e) => self@.len() > 0 && *e == self@[0],
            },
    {
        match &self.head {
            None => None,
            Some(node) => Some(&node.elem),
        }
    }

    /// An iterator over shared borrows of the elements, front first.
    pub fn iter(&self) -> (iter: Iter<'_, T>)
        ensures
            iter@ == self@,
    {
        Iter {
            next: match &self.head {
                None => None,
                Some(node) => Some(&**node),
            },
        }
    }
}

impl<T> Default for List<T> {
    fn default() -> (list: Self)
        ensures
            list@ == Seq::<T>::empty(),
    {
        List::new()
    }
}

/// Iterates over shared borrows of a list's elements, front first.
pub struct Iter<'a, T> {
    next: Option<&'a Node<T>>,
}

impl<'a, T> View for Iter<'a, T> {
    type V = Seq<T>;

    closed spec fn view(&self) -> Seq<T> {
        match self.next {
            None => Seq::empty(),
            Some(node) => seq![node.elem] + link_rep(node.next),
        }
    }
}

impl<'a, T> Iter<'a, T> {
    /// Borrows the next element; `None` exactly when the iterator is done.
    pub fn next(&mut self) -> (elem: Option<&'a T>)
        ensures
            match elem {
                None => old(self)@.len() == 0 && final(self)@ == old(self)@,
                Some(e) => old(self)@.len() > 0 && *e == old(self)@[0] && final(self)@ == old(
                    self,
                )@.drop_first(),
            },
    {
        match self.next {
            None => None,
            Some(node) => {
                self.next = match &node.next {
                    None => None,
                    Some(next_node) => Some(&**next_node),
                };
                proof {
                    assert(self@ =~= old(self)@.drop_first());
                }
                Some(&node.elem)
            },
        }
    }
}

} // verus!
