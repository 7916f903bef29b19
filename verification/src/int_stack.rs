//! A LIFO stack of `i32` values over an explicit link enum.
//!
//! The links form a chain of exclusively owned nodes, so popping the head
//! hands the whole remainder of the chain back to the list. The stack's
//! abstract value is the sequence of elements from the top down.

use vstd::prelude::*;

verus! {

enum Link {
    Empty,
    More(Box<Node>),
}

struct Node {
    elem: i32,
    next: Link,
}

/// The elements reachable from a link, top of the stack first.
spec fn link_rep(link: Link) -> Seq<i32>
    decreases link,
{
    match link {
        Link::Empty => Seq::empty(),
        Link::More(node) => seq![node.elem] + link_rep(node.next),
    }
}

/// A stack: can be empty or hold a chain of nodes starting at `head`.
pub struct List {
    head: Link,
}

impl View for List {
    type V = Seq<i32>;

    closed spec fn view(&self) -> Seq<i32> {
        link_rep(self.head)
    }
}

impl List {
    pub fn new() -> (list: List)
        ensures
            list@ == Seq::<i32>::empty(),
    {
        List { head: Link::Empty }
    }

    /// Detaches the whole chain from the list, leaving it empty.
    fn pop_node(&mut self) -> (link: Link)
        ensures
            link_rep(link) == old(self)@,
            final(self)@ == Seq::<i32>::empty(),
    {
        let mut link = Link::Empty;
        core::mem::swap(&mut self.head, &mut link);
        link
    }

    /// Pushes an element on top of the stack.
    pub fn push(&mut self, elem: i32)
        ensures
            final(self)@ == seq![elem] + old(self)@,
    {
        let new_node = Box::new(Node { elem, next: self.pop_node() });
        self.head = Link::More(new_node);
    }

    /// Pops the top element; `None` exactly when the stack is empty.
    pub fn pop(&mut self) -> (elem: Option<i32>)
        ensures
            match elem {
                None => old(self)@.len() == 0 && final(self)@ == old(self)@,
                Some(e) => old(self)@.len() > 0 && e == old(self)@[0] && final(self)@ == old(
                    self,
                )@.drop_first(),
            },
    {
        match self.pop_node() {
            Link::Empty => None,
            Link::More(node) => {
                let node = *node;
                self.head = node.next;
                proof {
                    assert(self@ =~= old(self)@.drop_first());
                }
                Some(node.elem)
            },
        }
    }
}

impl Default for List {
    fn default() -> (list: Self)
        ensures
            list@ == Seq::<i32>::empty(),
    {
        List::new()
    }
}

impl Drop for List {
    /// Releases the chain iteratively, so that discarding a long stack
    /// never nests one node's release inside another's.
    fn drop(&mut self)
        opens_invariants none
        no_unwind
    {
        let mut cur_link = Link::Empty;
        core::mem::swap(&mut self.head, &mut cur_link);
        loop
            decreases link_rep(cur_link).len(),
        {
            match cur_link {
                Link::Empty => {
                    break ;
                },
                Link::More(node) => {
                    let node = *node;
                    cur_link = node.next;
                },
            }
        }
    }
}

} // verus!
