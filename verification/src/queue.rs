//! A singly-linked FIFO queue over a node arena.
//!
//! Nodes carry only a forward link; the list keeps a head anchor and — so
//! that appending needs no walk down the chain — a tail anchor. An unchecked
//! back-pointer to the tail node would be unsound the moment the node it
//! names is freed, so the anchor is an index into an arena of slots instead:
//! a stale index can at worst name an empty slot, and the well-formedness
//! predicate [`List::wf`] rules even that out. Freed slots are recycled
//! through a free list.

use vstd::prelude::*;

verus! {

struct Node<T> {
    elem: T,
    next: Option<usize>,
}

/// A queue of singly-linked nodes stored in an arena.
///
/// `slots` is the arena; `free` holds the indices of the empty slots that
/// are ready for reuse; `head` names the front node and `tail` the back
/// node; `order` is the ghost list of slot indices in front-to-back order.
pub struct List<T> {
    slots: Vec<Option<Node<T>>>,
    free: Vec<usize>,
    head: Option<usize>,
    tail: Option<usize>,
    order: Ghost<Seq<usize>>,
}

impl<T> View for List<T> {
    type V = Seq<T>;

    closed spec fn view(&self) -> Seq<T> {
        Seq::new(self.order@.len(), |k: int| self.slots@[self.order@[k] as int].unwrap().elem)
    }
}

impl<T> List<T> {
    /// The forward link the node at position `k` must carry.
    spec fn next_of(&self, k: int) -> Option<usize> {
        if k + 1 == self.order@.len() {
            None
        } else {
            Some(self.order@[k + 1])
        }
    }

    /// The node at position `k` is live and its link agrees with its
    /// position.
    spec fn wf_node(&self, k: int) -> bool {
        &&& (self.order@[k] as int) < self.slots@.len()
        &&& self.slots@[self.order@[k] as int] is Some
        &&& self.slots@[self.order@[k] as int].unwrap().next == self.next_of(k)
    }

    /// The free list names empty slots only, and names none twice.
    spec fn wf_free(&self) -> bool {
        &&& forall|j: int|
            0 <= j < self.free@.len() ==> (#[trigger] self.free@[j] as int) < self.slots@.len()
                && self.slots@[self.free@[j] as int] is None
        &&& forall|j1: int, j2: int|
            0 <= j1 < self.free@.len() && 0 <= j2 < self.free@.len() && j1 != j2
                ==> self.free@[j1] != self.free@[j2]
    }

    /// The link invariants: the anchors are empty exactly when the queue is,
    /// and otherwise name the first and the last node; every node's link
    /// agrees with its position; no slot stands at two positions; every live
    /// slot stands at a position; and the free list is sound.
    pub closed spec fn wf(&self) -> bool {
        &&& forall|k: int| 0 <= k < self.order@.len() ==> #[trigger] self.wf_node(k)
        &&& forall|k1: int, k2: int|
            0 <= k1 < self.order@.len() && 0 <= k2 < self.order@.len() && k1 != k2
                ==> self.order@[k1] != self.order@[k2]
        &&& if self.order@.len() == 0 {
            self.head is None && self.tail is None
        } else {
            self.head == Some(self.order@[0]) && self.tail == Some(
                self.order@[self.order@.len() - 1],
            )
        }
        &&& self.wf_free()
        &&& forall|i: int|
            0 <= i < self.slots@.len() && #[trigger] self.slots@[i] is Some ==> exists|k: int|
                0 <= k < self.order@.len() && self.order@[k] == i
    }

    pub fn new() -> (list: List<T>)
        ensures
            list.wf(),
            list@ == Seq::<T>::empty(),
    {
        let list = List {
            slots: Vec::new(),
            free: Vec::new(),
            head: None,
            tail: None,
            order: Ghost(Seq::empty()),
        };
        proof {
            assert(list@ =~= Seq::<T>::empty());
        }
        list
    }

    /// Swaps the contents of slot `i`, leaving everything else unchanged.
    fn replace_slot(&mut self, i: usize, x: Option<Node<T>>) -> (r: Option<Node<T>>)
        requires
            (i as int) < old(self).slots@.len(),
        ensures
            r == old(self).slots@[i as int],
            final(self).slots@ == old(self).slots@.update(i as int, x),
            final(self).free == old(self).free,
            final(self).head == old(self).head,
            final(self).tail == old(self).tail,
            final(self).order == old(self).order,
    {
        let slot = &mut self.slots[i];
        let mut x = x;
        core::mem::swap(slot, &mut x);
        x
    }

    /// Rewrites the forward link of the live node in slot `i`.
    fn set_next(&mut self, i: usize, n: Option<usize>)
        requires
            (i as int) < old(self).slots@.len(),
            old(self).slots@[i as int] is Some,
        ensures
            final(self).slots@ == old(self).slots@.update(
                i as int,
                Some(
                    (Node { elem: old(self).slots@[i as int].unwrap().elem, next: n }),
                ),
            ),
            final(self).free == old(self).free,
            final(self).head == old(self).head,
            final(self).tail == old(self).tail,
            final(self).order == old(self).order,
    {
        match self.replace_slot(i, None) {
            Some(node) => {
                let mut node = node;
                node.next = n;
                let _ = self.replace_slot(i, Some(node));
                proof {
                    assert(self.slots@ =~= old(self).slots@.update(
                        i as int,
                        Some(
                            (Node { elem: old(self).slots@[i as int].unwrap().elem, next: n }),
                        ),
                    ));
                }
            },
            None => {},
        }
    }

    /// Stores a fresh node in an empty slot — recycling a freed one when
    /// there is one — and returns the slot's index.
    fn alloc_slot(&mut self, node: Node<T>) -> (i: usize)
        requires
            old(self).wf_free(),
        ensures
            final(self).wf_free(),
            final(self).head == old(self).head,
            final(self).tail == old(self).tail,
            final(self).order == old(self).order,
            (i as int) < final(self).slots@.len(),
            final(self).slots@[i as int] == Some(node),
            old(self).slots@.len() <= final(self).slots@.len(),
            forall|j: int|
                0 <= j < final(self).slots@.len() && j != i ==> (j < old(self).slots@.len()
                    && final(self).slots@[j] == old(self).slots@[j]),
            (i as int) >= old(self).slots@.len() || old(self).slots@[i as int] is None,
            forall|j: int| 0 <= j < final(self).free@.len() ==> final(self).free@[j] != i,
    {
        match self.free.pop() {
            Some(i) => {
                let _ = self.replace_slot(i, Some(node));
                proof {
                    assert(forall|j: int|
                        0 <= j < self.free@.len() ==> self.free@[j] == old(self).free@[j]);
                }
                i
            },
            None => {
                let i = self.slots.len();
                self.slots.push(Some(node));
                i
            },
        }
    }

    /// Appends an element at the back: a fresh node becomes the tail node,
    /// reached in one step through the tail anchor, and the old tail node —
    /// if any — is linked to it.
    pub fn push(&mut self, elem: T)
        requires
            old(self).wf(),
        ensures
            final(self).wf(),
            final(self)@ == old(self)@.push(elem),
    {
        let node = Node { elem, next: None };
        let old_tail = self.tail;
        let i = self.alloc_slot(node);
        match old_tail {
            Some(t) => {
                proof {
                    assert(old(self).wf_node(old(self).order@.len() - 1));
                }
                self.set_next(t, Some(i));
                self.tail = Some(i);
            },
            None => {
                self.head = Some(i);
                self.tail = Some(i);
            },
        }
        proof {
            let ord0 = old(self).order@;
            let n = ord0.len() as int;
            self.order@ = ord0.push(i);
            assert forall|k: int| 0 <= k < n implies old(self).wf_node(k) && ord0[k] != i by {
                assert(old(self).wf_node(k));
            }
            assert forall|k: int| 0 <= k < self.order@.len() implies #[trigger] self.wf_node(
                k,
            ) by {
                if k < n {
                    assert(old(self).wf_node(k));
                    if k + 1 < n {
                        assert(old(self).wf_node(k + 1));
                    }
                }
            }
            assert forall|j: int|
                0 <= j < self.free@.len() implies (#[trigger] self.free@[j] as int)
                < self.slots@.len() && self.slots@[self.free@[j] as int] is None by {}
            assert forall|j: int|
                0 <= j < self.slots@.len() && #[trigger] self.slots@[j] is Some implies exists|
                k: int,
            |
                0 <= k < self.order@.len() && self.order@[k] == j by {
                if j == i as int {
                    assert(self.order@[n] == i);
                } else {
                    assert(old(self).slots@[j] is Some);
                    let k0 = choose|k0: int| 0 <= k0 < n && ord0[k0] == j;
                    assert(self.order@[k0] == j);
                }
            }
            assert(self@ =~= old(self)@.push(elem));
        }
    }

    /// Pops the front element; `None` exactly when the queue is empty, and
    /// then nothing is changed. Otherwise the head node's slot is freed, the
    /// head anchor moves one node down the chain — and when the popped node
    /// was also the tail node, both anchors are cleared.
    pub fn pop(&mut self) -> (elem: Option<T>)
        requires
            old(self).wf(),
        ensures
            final(self).wf(),
            match elem {
                None => old(self)@.len() == 0 && *final(self) == *old(self),
                Some(e) => old(self)@.len() > 0 && e == old(self)@[0] && final(self)@ == old(
                    self,
                )@.drop_first(),
            },
    {
        let h = match self.head {
            None => {
                return None;
            },
            Some(h) => h,
        };
        proof {
            assert(old(self).wf_node(0));
        }
        let node = match self.replace_slot(h, None) {
            Some(node) => node,
            None => {
                return None;
            },
        };
        match node.next {
            Some(nh) => {
                self.head = Some(nh);
            },
            None => {
                self.head = None;
                self.tail = None;
            },
        }
        self.free.push(h);
        proof {
            let ord0 = old(self).order@;
            let n = ord0.len() as int;
            self.order@ = ord0.drop_first();
            assert forall|k: int| 0 <= k < self.order@.len() implies #[trigger] self.wf_node(
                k,
            ) by {
                assert(old(self).wf_node(k + 1));
                assert(ord0[k + 1] != ord0[0]);
                if k + 2 < n {
                    assert(ord0[k + 2] != ord0[0]);
                }
            }
            assert forall|j: int|
                0 <= j < self.free@.len() implies (#[trigger] self.free@[j] as int)
                < self.slots@.len() && self.slots@[self.free@[j] as int] is None by {
                if j < old(self).free@.len() {
                    assert(old(self).free@[j] == self.free@[j]);
                } else {
                    assert(self.free@[j] == h);
                }
            }
            assert forall|j1: int, j2: int|
                0 <= j1 < self.free@.len() && 0 <= j2 < self.free@.len() && j1
                    != j2 implies self.free@[j1] != self.free@[j2] by {
                if j1 == self.free@.len() - 1 || j2 == self.free@.len() - 1 {
                    let jo = if j1 == self.free@.len() - 1 {
                        j2
                    } else {
                        j1
                    };
                    if jo < old(self).free@.len() {
                        assert(old(self).free@[jo] == self.free@[jo]);
                    }
                }
            }
            assert forall|j: int|
                0 <= j < self.slots@.len() && #[trigger] self.slots@[j] is Some implies exists|
                k: int,
            |
                0 <= k < self.order@.len() && self.order@[k] == j by {
                let k0 = choose|k0: int| 0 <= k0 < n && ord0[k0] == j;
                assert(ord0[k0] != ord0[0]);
                assert(self.order@[k0 - 1] == j);
            }
            assert forall|k: int| 0 <= k < self.order@.len() implies self@[k] == old(self)@[k
                + 1] by {
                assert(ord0[k + 1] != ord0[0]);
                assert(self.order@[k] == ord0[k + 1]);
                assert(old(self).wf_node(k + 1));
                assert(old(self).slots@[ord0[k + 1] as int] is Some);
            }
            assert(self@ =~= old(self)@.drop_first());
        }
        Some(node.elem)
    }

    /// Borrows the front element; `None` exactly when the queue is empty.
    pub fn peek(&self) -> (elem: Option<&T>)
        requires
            self.wf(),
        ensures
            match elem {
                None => self@.len() == 0,
                Some(e) => self@.len() > 0 && *e == self@[0],
            },
    {
        match self.head {
            None => None,
            Some(h) => {
                proof {
                    assert(self.wf_node(0));
                }
                match &self.slots[h] {
                    Some(node) => Some(&node.elem),
                    None => None,
                }
            },
        }
    }

    /// Borrows the front element exclusively; whatever the caller writes
    /// through the borrow replaces the front element.
    pub fn peek_mut(&mut self) -> (elem: Option<&mut T>)
        requires
            old(self).wf(),
        ensures
            final(self).wf(),
            match elem {
                None => old(self)@.len() == 0 && *final(self) == *old(self),
                Some(e) => old(self)@.len() > 0 && *e == old(self)@[0] && final(self)@ =~= old(
                    self,
                )@.update(0, *final(e)),
            },
    {
        match self.head {
            None => None,
            Some(h) => {
                proof {
                    assert(old(self).wf_node(0));
                    assert forall|k: int|
                        0 <= k < old(self).order@.len() implies old(self).wf_node(k) && (k == 0
                            || #[trigger] old(self).order@[k] != old(self).order@[0]) by {
                        assert(old(self).wf_node(k));
                    }
                    assert forall|j: int|
                        0 <= j < old(self).free@.len() implies #[trigger] old(self).free@[j]
                            != h by {
                        assert((old(self).free@[j] as int) < old(self).slots@.len());
                    }
                }
                match &mut self.slots[h] {
                    Some(node) => Some(&mut node.elem),
                    None => None,
                }
            },
        }
    }

    /// Turns the queue into a draining iterator over its elements, front
    /// first.
    pub fn into_iter(self) -> (iter: IntoIter<T>)
        requires
            self.wf(),
        ensures
            iter.wf(),
            iter@ == self@,
    {
        IntoIter(self)
    }

    /// An iterator over shared borrows of the elements, front first.
    pub fn iter(&self) -> (iter: Iter<'_, T>)
        requires
            self.wf(),
        ensures
            iter.wf(),
            iter@ == self@,
    {
        let iter = Iter { list: self, cursor: self.head, pos: Ghost(0) };
        proof {
            assert(iter@ =~= self@);
        }
        iter
    }

    /// An iterator over exclusive borrows of the elements, front first.
    pub fn iter_mut(&mut self) -> (iter: IterMut<'_, T>)
        requires
            old(self).wf(),
        ensures
            iter.wf(),
            iter.remaining() == old(self)@,
    {
        let cursor = self.head;
        IterMut { list: self, cursor, pos: Ghost(0) }
    }
}

impl<T> Default for List<T> {
    fn default() -> (list: Self)
        ensures
            list.wf(),
            list@ == Seq::<T>::empty(),
    {
        List::new()
    }
}

/// Iterates over shared borrows of a queue's elements, front first, by
/// walking the forward links from the head anchor.
pub struct Iter<'a, T> {
    list: &'a List<T>,
    cursor: Option<usize>,
    pos: Ghost<int>,
}

impl<'a, T> View for Iter<'a, T> {
    type V = Seq<T>;

    closed spec fn view(&self) -> Seq<T> {
        self.list@.skip(self.pos@)
    }
}

impl<'a, T> Iter<'a, T> {
    /// The underlying queue is well formed and the cursor names the node at
    /// the iterator's position.
    pub closed spec fn wf(&self) -> bool {
        &&& self.list.wf()
        &&& 0 <= self.pos@ <= self.list.order@.len()
        &&& self.cursor == (if self.pos@ == self.list.order@.len() {
            None::<usize>
        } else {
            Some(self.list.order@[self.pos@])
        })
    }

    /// Borrows the next element; `None` exactly when the iterator is done.
    pub fn next(&mut self) -> (elem: Option<&'a T>)
        requires
            old(self).wf(),
        ensures
            final(self).wf(),
            match elem {
                None => old(self)@.len() == 0 && *final(self) == *old(self),
                Some(e) => old(self)@.len() > 0 && *e == old(self)@[0] && final(self)@ == old(
                    self,
                )@.drop_first(),
            },
    {
        match self.cursor {
            None => None,
            Some(i) => {
                let list = self.list;
                proof {
                    assert(list.wf_node(self.pos@));
                }
                match &list.slots[i] {
                    Some(node) => {
                        self.cursor = node.next;
                        proof {
                            self.pos@ = self.pos@ + 1;
                            assert(self@ =~= old(self)@.drop_first());
                        }
                        Some(&node.elem)
                    },
                    None => None,
                }
            },
        }
    }
}

/// Iterates over exclusive borrows of a queue's elements, front first. The
/// borrows reach through the iterator into the queue, so each one must be
/// dropped before the next is taken.
pub struct IterMut<'a, T> {
    list: &'a mut List<T>,
    cursor: Option<usize>,
    pos: Ghost<int>,
}

impl<'a, T> IterMut<'a, T> {
    /// The underlying queue is well formed and the cursor names the node at
    /// the iterator's position.
    pub closed spec fn wf(&self) -> bool {
        &&& self.list.wf()
        &&& 0 <= self.pos@ <= self.list.order@.len()
        &&& self.cursor == (if self.pos@ == self.list.order@.len() {
            None::<usize>
        } else {
            Some(self.list.order@[self.pos@])
        })
    }

    /// The elements still to be visited, as they stand now.
    pub closed spec fn remaining(&self) -> Seq<T> {
        self.list@.skip(self.pos@)
    }

    /// Borrows the next element exclusively; `None` exactly when the
    /// iterator is done.
    pub fn next(&mut self) -> (elem: Option<&mut T>)
        requires
            old(self).wf(),
        ensures
            final(self).wf(),
            match elem {
                None => old(self).remaining().len() == 0 && *final(self) == *old(self),
                Some(e) => old(self).remaining().len() > 0 && *e == old(self).remaining()[0]
                    && final(self).remaining() =~= old(self).remaining().drop_first(),
            },
    {
        match self.cursor {
            None => None,
            Some(i) => {
                proof {
                    let p = self.pos@;
                    assert(self.list.wf_node(p));
                    assert forall|k: int|
                        0 <= k < self.list.order@.len() implies self.list.wf_node(k) && (k == p
                            || #[trigger] self.list.order@[k] != self.list.order@[p]) by {
                        assert(self.list.wf_node(k));
                    }
                    assert forall|j: int|
                        0 <= j < self.list.free@.len() implies #[trigger] self.list.free@[j]
                            != i by {
                        assert((self.list.free@[j] as int) < self.list.slots@.len());
                    }
                }
                match &mut self.list.slots[i] {
                    Some(node) => {
                        self.cursor = node.next;
                        proof {
                            self.pos@ = self.pos@ + 1;
                        }
                        Some(&mut node.elem)
                    },
                    None => None,
                }
            },
        }
    }
}

/// Drains a queue by value, front first.
pub struct IntoIter<T>(List<T>);

impl<T> View for IntoIter<T> {
    type V = Seq<T>;

    closed spec fn view(&self) -> Seq<T> {
        self.0@
    }
}

impl<T> IntoIter<T> {
    /// The underlying queue's links are well formed.
    pub closed spec fn wf(&self) -> bool {
        self.0.wf()
    }

    /// Pops the next element; `None` exactly when the queue is drained.
    pub fn next(&mut self) -> (elem: Option<T>)
        requires
            old(self).wf(),
        ensures
            final(self).wf(),
            match elem {
                None => old(self)@.len() == 0 && final(self)@ == old(self)@,
                Some(e) => old(self)@.len() > 0 && e == old(self)@[0] && final(self)@ == old(
                    self,
                )@.drop_first(),
            },
    {
        self.0.pop()
    }
}

} // verus!
