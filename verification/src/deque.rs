//! A doubly-linked deque over a node arena.
//!
//! Every element lives in a node holding the element together with a `prev`
//! and a `next` link, and the list anchors name the first and the last node.
//! A doubly-linked structure cannot be built from exclusively owned handles
//! alone — each interior node is reachable from both neighbors — so the nodes
//! live in an arena: a vector of slots, with links and anchors as slot
//! indices. Freed slots are recycled through a free list, and dropping the
//! list releases the remaining nodes in one flat sweep of the arena, never
//! by a chain of nested node drops.
//!
//! The well-formedness predicate [`List::wf`] pins the link discipline down:
//! the anchors are empty exactly when the list is, forward and backward links
//! between adjacent nodes always agree, the first node has no predecessor and
//! the last no successor, no node stands at two positions, and every live
//! node stands at a position. [`List::lemma_link_agreement`] and
//! [`List::lemma_no_lost_nodes`] state those guarantees publicly.

use vstd::prelude::*;

verus! {

struct Node<T> {
    elem: T,
    prev: Option<usize>,
    next: Option<usize>,
}

impl<T> Node<T> {
    /// A fresh node, not yet linked to any neighbor.
    fn new(elem: T) -> (node: Node<T>)
        ensures
            node.elem == elem,
            node.prev is None,
            node.next is None,
    {
        Node { elem, prev: None, next: None }
    }
}

/// A deque of nodes linked in both directions, stored in an arena.
///
/// `slots` is the arena; `free` holds the indices of the empty slots that are
/// ready for reuse; `head` and `tail` are the anchors; `order` is the ghost
/// list of slot indices in front-to-back order, against which the link
/// invariants are stated.
pub struct List<T> {
    slots: Vec<Option<Node<T>>>,
    free: Vec<usize>,
    head: Option<usize>,
    tail: Option<usize>,
    order: Ghost<Seq<usize>>,
}

impl<T> View for List<T> {
    type V = Seq<T>;

    closed spec fn view(&self) -> Seq<T> {
        Seq::new(self.order@.len(), |k: int| self.slots@[self.order@[k] as int].unwrap().elem)
    }
}

impl<T> List<T> {
    /// The arena index of the node at list position `k`.
    pub closed spec fn node_index(&self, k: int) -> int {
        self.order@[k] as int
    }

    /// Whether arena index `i` holds a live node.
    pub closed spec fn live(&self, i: int) -> bool {
        0 <= i < self.slots@.len() && self.slots@[i] is Some
    }

    /// The backward link of the node at arena index `i`.
    pub closed spec fn node_prev(&self, i: int) -> Option<usize>
        recommends
            self.live(i),
    {
        self.slots@[i].unwrap().prev
    }

    /// The forward link of the node at arena index `i`.
    pub closed spec fn node_next(&self, i: int) -> Option<usize>
        recommends
            self.live(i),
    {
        self.slots@[i].unwrap().next
    }

    /// The front anchor, as an arena index.
    pub closed spec fn head_index(&self) -> Option<usize> {
        self.head
    }

    /// The back anchor, as an arena index.
    pub closed spec fn tail_index(&self) -> Option<usize> {
        self.tail
    }

    /// The backward link the node at position `k` must carry.
    spec fn prev_of(&self, k: int) -> Option<usize> {
        if k == 0 {
            None
        } else {
            Some(self.order@[k - 1])
        }
    }

    /// The forward link the node at position `k` must carry.
    spec fn next_of(&self, k: int) -> Option<usize> {
        if k + 1 == self.order@.len() {
            None
        } else {
            Some(self.order@[k + 1])
        }
    }

    /// The node at position `k` is live and its links agree with its
    /// position.
    spec fn wf_node(&self, k: int) -> bool {
        &&& (self.order@[k] as int) < self.slots@.len()
        &&& self.slots@[self.order@[k] as int] is Some
        &&& self.slots@[self.order@[k] as int].unwrap().prev == self.prev_of(k)
        &&& self.slots@[self.order@[k] as int].unwrap().next == self.next_of(k)
    }

    /// The free list names empty slots only, and names none twice.
    spec fn wf_free(&self) -> bool {
        &&& forall|j: int|
            0 <= j < self.free@.len() ==> (#[trigger] self.free@[j] as int) < self.slots@.len()
                && self.slots@[self.free@[j] as int] is None
        &&& forall|j1: int, j2: int|
            0 <= j1 < self.free@.len() && 0 <= j2 < self.free@.len() && j1 != j2
                ==> self.free@[j1] != self.free@[j2]
    }

    /// The link invariants: anchors are empty exactly when the list is;
    /// every node's links agree with its position, so adjacent forward and
    /// backward links always point at each other; no slot stands at two
    /// positions; every live slot stands at a position; and the free list is
    /// sound.
    pub closed spec fn wf(&self) -> bool {
        &&& forall|k: int| 0 <= k < self.order@.len() ==> #[trigger] self.wf_node(k)
        &&& forall|k1: int, k2: int|
            0 <= k1 < self.order@.len() && 0 <= k2 < self.order@.len() && k1 != k2
                ==> self.order@[k1] != self.order@[k2]
        &&& if self.order@.len() == 0 {
            self.head is None && self.tail is None
        } else {
            self.head == Some(self.order@[0]) && self.tail == Some(
                self.order@[self.order@.len() - 1],
            )
        }
        &&& self.wf_free()
        &&& forall|i: int|
            0 <= i < self.slots@.len() && #[trigger] self.slots@[i] is Some ==> exists|k: int|
                0 <= k < self.order@.len() && self.order@[k] == i
    }

    pub fn new() -> (list: List<T>)
        ensures
            list.wf(),
            list@ == Seq::<T>::empty(),
    {
        let list = List {
            slots: Vec::new(),
            free: Vec::new(),
            head: None,
            tail: None,
            order: Ghost(Seq::empty()),
        };
        proof {
            assert(list@ =~= Seq::<T>::empty());
        }
        list
    }

    /// Swaps the contents of slot `i`, leaving everything else unchanged.
    fn replace_slot(&mut self, i: usize, x: Option<Node<T>>) -> (r: Option<Node<T>>)
        requires
            (i as int) < old(self).slots@.len(),
        ensures
            r == old(self).slots@[i as int],
            final(self).slots@ == old(self).slots@.update(i as int, x),
            final(self).free == old(self).free,
            final(self).head == old(self).head,
            final(self).tail == old(self).tail,
            final(self).order == old(self).order,
    {
        let slot = &mut self.slots[i];
        let mut x = x;
        core::mem::swap(slot, &mut x);
        x
    }

    /// Rewrites the backward link of the live node in slot `i`.
    fn set_prev(&mut self, i: usize, p: Option<usize>)
        requires
            (i as int) < old(self).slots@.len(),
            old(self).slots@[i as int] is Some,
        ensures
            final(self).slots@ == old(self).slots@.update(
                i as int,
                Some(
                    (Node {
                        elem: old(self).slots@[i as int].unwrap().elem,
                        prev: p,
                        next: old(self).slots@[i as int].unwrap().next,
                    }),
                ),
            ),
            final(self).free == old(self).free,
            final(self).head == old(self).head,
            final(self).tail == old(self).tail,
            final(self).order == old(self).order,
    {
        match self.replace_slot(i, None) {
            Some(node) => {
                let mut node = node;
                node.prev = p;
                let _ = self.replace_slot(i, Some(node));
                proof {
                    assert(self.slots@ =~= old(self).slots@.update(
                        i as int,
                        Some(
                            (Node {
                                elem: old(self).slots@[i as int].unwrap().elem,
                                prev: p,
                                next: old(self).slots@[i as int].unwrap().next,
                            }),
                        ),
                    ));
                }
            },
            None => {},
        }
    }

    /// Rewrites the forward link of the live node in slot `i`.
    fn set_next(&mut self, i: usize, n: Option<usize>)
        requires
            (i as int) < old(self).slots@.len(),
            old(self).slots@[i as int] is Some,
        ensures
            final(self).slots@ == old(self).slots@.update(
                i as int,
                Some(
                    (Node {
                        elem: old(self).slots@[i as int].unwrap().elem,
                        prev: old(self).slots@[i as int].unwrap().prev,
                        next: n,
                    }),
                ),
            ),
            final(self).free == old(self).free,
            final(self).head == old(self).head,
            final(self).tail == old(self).tail,
            final(self).order == old(self).order,
    {
        match self.replace_slot(i, None) {
            Some(node) => {
                let mut node = node;
                node.next = n;
                let _ = self.replace_slot(i, Some(node));
                proof {
                    assert(self.slots@ =~= old(self).slots@.update(
                        i as int,
                        Some(
                            (Node {
                                elem: old(self).slots@[i as int].unwrap().elem,
                                prev: old(self).slots@[i as int].unwrap().prev,
                                next: n,
                            }),
                        ),
                    ));
                }
            },
            None => {},
        }
    }

    /// Stores a fresh node in an empty slot — recycling a freed one when
    /// there is one — and returns the slot's index.
    fn alloc_slot(&mut self, node: Node<T>) -> (i: usize)
        requires
            old(self).wf_free(),
        ensures
            final(self).wf_free(),
            final(self).head == old(self).head,
            final(self).tail == old(self).tail,
            final(self).order == old(self).order,
            (i as int) < final(self).slots@.len(),
            final(self).slots@[i as int] == Some(node),
            old(self).slots@.len() <= final(self).slots@.len(),
            forall|j: int|
                0 <= j < final(self).slots@.len() && j != i ==> (j < old(self).slots@.len()
                    && final(self).slots@[j] == old(self).slots@[j]),
            (i as int) >= old(self).slots@.len() || old(self).slots@[i as int] is None,
            forall|j: int| 0 <= j < final(self).free@.len() ==> final(self).free@[j] != i,
    {
        match self.free.pop() {
            Some(i) => {
                let _ = self.replace_slot(i, Some(node));
                proof {
                    assert(forall|j: int|
                        0 <= j < self.free@.len() ==> self.free@[j] == old(self).free@[j]);
                }
                i
            },
            None => {
                let i = self.slots.len();
                self.slots.push(Some(node));
                i
            },
        }
    }

    /// Pushes an element at the front: a fresh node becomes the head node,
    /// and the old head node — if any — is linked behind it.
    pub fn push_front(&mut self, elem: T)
        requires
            old(self).wf(),
        ensures
            final(self).wf(),
            final(self)@ == seq![elem] + old(self)@,
    {
        let mut node = Node::new(elem);
        node.next = self.head;
        let old_head = self.head;
        let i = self.alloc_slot(node);
        match old_head {
            Some(h) => {
                proof {
                    assert(old(self).wf_node(0));
                }
                self.set_prev(h, Some(i));
                self.head = Some(i);
            },
            None => {
                self.head = Some(i);
                self.tail = Some(i);
            },
        }
        proof {
            let ord0 = old(self).order@;
            let n = ord0.len() as int;
            self.order@ = seq![i] + ord0;
            assert forall|k: int| 0 <= k < n implies old(self).wf_node(k) && ord0[k] != i by {
                assert(old(self).wf_node(k));
            }
            assert forall|k: int| 0 <= k < self.order@.len() implies #[trigger] self.wf_node(
                k,
            ) by {
                if k > 0 {
                    assert(old(self).wf_node(k - 1));
                    if k > 1 {
                        assert(old(self).wf_node(k - 2));
                    }
                }
            }
            assert forall|j: int|
                0 <= j < self.free@.len() implies (#[trigger] self.free@[j] as int)
                < self.slots@.len() && self.slots@[self.free@[j] as int] is None by {}
            assert forall|j: int|
                0 <= j < self.slots@.len() && #[trigger] self.slots@[j] is Some implies exists|
                k: int,
            |
                0 <= k < self.order@.len() && self.order@[k] == j by {
                if j == i as int {
                    assert(self.order@[0] == i);
                } else {
                    assert(old(self).slots@[j] is Some);
                    let k0 = choose|k0: int| 0 <= k0 < n && ord0[k0] == j;
                    assert(self.order@[k0 + 1] == j);
                }
            }
            assert(self@ =~= seq![elem] + old(self)@);
        }
    }

    /// Pushes an element at the back: a fresh node becomes the tail node,
    /// and the old tail node — if any — is linked in front of it.
    pub fn push_back(&mut self, elem: T)
        requires
            old(self).wf(),
        ensures
            final(self).wf(),
            final(self)@ == old(self)@.push(elem),
    {
        let mut node = Node::new(elem);
        node.prev = self.tail;
        let old_tail = self.tail;
        let i = self.alloc_slot(node);
        match old_tail {
            Some(t) => {
                proof {
                    assert(old(self).wf_node(old(self).order@.len() - 1));
                }
                self.set_next(t, Some(i));
                self.tail = Some(i);
            },
            None => {
                self.head = Some(i);
                self.tail = Some(i);
            },
        }
        proof {
            let ord0 = old(self).order@;
            let n = ord0.len() as int;
            self.order@ = ord0.push(i);
            assert forall|k: int| 0 <= k < n implies old(self).wf_node(k) && ord0[k] != i by {
                assert(old(self).wf_node(k));
            }
            assert forall|k: int| 0 <= k < self.order@.len() implies #[trigger] self.wf_node(
                k,
            ) by {
                if k < n {
                    assert(old(self).wf_node(k));
                    if k + 1 < n {
                        assert(old(self).wf_node(k + 1));
                    }
                }
            }
            assert forall|j: int|
                0 <= j < self.free@.len() implies (#[trigger] self.free@[j] as int)
                < self.slots@.len() && self.slots@[self.free@[j] as int] is None by {}
            assert forall|j: int|
                0 <= j < self.slots@.len() && #[trigger] self.slots@[j] is Some implies exists|
                k: int,
            |
                0 <= k < self.order@.len() && self.order@[k] == j by {
                if j == i as int {
                    assert(self.order@[n] == i);
                } else {
                    assert(old(self).slots@[j] is Some);
                    let k0 = choose|k0: int| 0 <= k0 < n && ord0[k0] == j;
                    assert(self.order@[k0] == j);
                }
            }
            assert(self@ =~= old(self)@.push(elem));
        }
    }

    /// Pops the front element; `None` exactly when the list is empty, and
    /// then nothing is changed. Otherwise the head node is unlinked — the
    /// new head node, if any, loses its backward link — its slot is freed,
    /// and its element is returned.
    pub fn pop_front(&mut self) -> (elem: Option<T>)
        requires
            old(self).wf(),
        ensures
            final(self).wf(),
            match elem {
                None => old(self)@.len() == 0 && *final(self) == *old(self),
                Some(e) => old(self)@.len() > 0 && e == old(self)@[0] && final(self)@ == old(
                    self,
                )@.drop_first(),
            },
    {
        let h = match self.head {
            None => {
                return None;
            },
            Some(h) => h,
        };
        proof {
            assert(old(self).wf_node(0));
        }
        let node = match self.replace_slot(h, None) {
            Some(node) => node,
            None => {
                return None;
            },
        };
        match node.next {
            Some(nh) => {
                proof {
                    assert(old(self).wf_node(1));
                }
                self.set_prev(nh, None);
                self.head = Some(nh);
            },
            None => {
                self.head = None;
                self.tail = None;
            },
        }
        self.free.push(h);
        proof {
            let ord0 = old(self).order@;
            let n = ord0.len() as int;
            self.order@ = ord0.drop_first();
            assert forall|k: int| 0 <= k < self.order@.len() implies #[trigger] self.wf_node(
                k,
            ) by {
                assert(old(self).wf_node(k + 1));
                assert(ord0[k + 1] != ord0[0]);
                if k > 0 {
                    assert(old(self).wf_node(k));
                }
                if k + 2 < n {
                    assert(ord0[k + 2] != ord0[0]);
                }
            }
            assert forall|j: int|
                0 <= j < self.free@.len() implies (#[trigger] self.free@[j] as int)
                < self.slots@.len() && self.slots@[self.free@[j] as int] is None by {
                if j < old(self).free@.len() {
                    assert(old(self).free@[j] == self.free@[j]);
                    if n >= 2 {
                        assert(old(self).wf_node(1));
                    }
                } else {
                    assert(self.free@[j] == h);
                    if n >= 2 {
                        assert(ord0[1] != ord0[0]);
                    }
                }
            }
            assert forall|j1: int, j2: int|
                0 <= j1 < self.free@.len() && 0 <= j2 < self.free@.len() && j1
                    != j2 implies self.free@[j1] != self.free@[j2] by {
                if j1 == self.free@.len() - 1 || j2 == self.free@.len() - 1 {
                    let jo = if j1 == self.free@.len() - 1 {
                        j2
                    } else {
                        j1
                    };
                    if jo < old(self).free@.len() {
                        assert(old(self).free@[jo] == self.free@[jo]);
                    }
                }
            }
            assert forall|j: int|
                0 <= j < self.slots@.len() && #[trigger] self.slots@[j] is Some implies exists|
                k: int,
            |
                0 <= k < self.order@.len() && self.order@[k] == j by {
                let k0 = choose|k0: int| 0 <= k0 < n && ord0[k0] == j;
                assert(ord0[k0] != ord0[0]);
                assert(self.order@[k0 - 1] == j);
            }
            assert forall|k: int| 0 <= k < self.order@.len() implies self@[k] == old(self)@[k
                + 1] by {
                assert(ord0[k + 1] != ord0[0]);
                if k > 0 {
                    assert(ord0[k + 1] != ord0[1]);
                }
                assert(old(self).wf_node(k + 1));
                assert(old(self).slots@[ord0[k + 1] as int] is Some);
            }
            assert(self@ =~= old(self)@.drop_first());
        }
        Some(node.elem)
    }

    /// Pops the back element; `None` exactly when the list is empty, and
    /// then nothing is changed. Otherwise the tail node is unlinked — the
    /// new tail node, if any, loses its forward link — its slot is freed,
    /// and its element is returned.
    pub fn pop_back(&mut self) -> (elem: Option<T>)
        requires
            old(self).wf(),
        ensures
            final(self).wf(),
            match elem {
                None => old(self)@.len() == 0 && *final(self) == *old(self),
                Some(e) => old(self)@.len() > 0 && e == old(self)@.last() && final(self)@ == old(
                    self,
                )@.drop_last(),
            },
    {
        let t = match self.tail {
            None => {
                return None;
            },
            Some(t) => t,
        };
        proof {
            assert(old(self).wf_node(old(self).order@.len() - 1));
        }
        let node = match self.replace_slot(t, None) {
            Some(node) => node,
            None => {
                return None;
            },
        };
        match node.prev {
            Some(nt) => {
                proof {
                    assert(old(self).wf_node(old(self).order@.len() - 2));
                }
                self.set_next(nt, None);
                self.tail = Some(nt);
            },
            None => {
                self.head = None;
                self.tail = None;
            },
        }
        self.free.push(t);
        proof {
            let ord0 = old(self).order@;
            let n = ord0.len() as int;
            self.order@ = ord0.drop_last();
            assert forall|k: int| 0 <= k < self.order@.len() implies #[trigger] self.wf_node(
                k,
            ) by {
                assert(old(self).wf_node(k));
                assert(ord0[k] != ord0[n - 1]);
                if k > 0 {
                    assert(old(self).wf_node(k - 1));
                }
                if k + 1 < n - 1 {
                    assert(ord0[k + 1] != ord0[n - 1]);
                }
            }
            assert forall|j: int|
                0 <= j < self.free@.len() implies (#[trigger] self.free@[j] as int)
                < self.slots@.len() && self.slots@[self.free@[j] as int] is None by {
                if j < old(self).free@.len() {
                    assert(old(self).free@[j] == self.free@[j]);
                    if n >= 2 {
                        assert(old(self).wf_node(n - 2));
                    }
                } else {
                    assert(self.free@[j] == t);
                    if n >= 2 {
                        assert(ord0[n - 2] != ord0[n - 1]);
                    }
                }
            }
            assert forall|j1: int, j2: int|
                0 <= j1 < self.free@.len() && 0 <= j2 < self.free@.len() && j1
                    != j2 implies self.free@[j1] != self.free@[j2] by {
                if j1 == self.free@.len() - 1 || j2 == self.free@.len() - 1 {
                    let jo = if j1 == self.free@.len() - 1 {
                        j2
                    } else {
                        j1
                    };
                    if jo < old(self).free@.len() {
                        assert(old(self).free@[jo] == self.free@[jo]);
                    }
                }
            }
            assert forall|j: int|
                0 <= j < self.slots@.len() && #[trigger] self.slots@[j] is Some implies exists|
                k: int,
            |
                0 <= k < self.order@.len() && self.order@[k] == j by {
                let k0 = choose|k0: int| 0 <= k0 < n && ord0[k0] == j;
                assert(ord0[k0] != ord0[n - 1]);
                assert(self.order@[k0] == j);
            }
            assert forall|k: int| 0 <= k < self.order@.len() implies self@[k] == old(
                self,
            )@[k] by {
                assert(ord0[k] != ord0[n - 1]);
                if k < n - 2 {
                    assert(ord0[k] != ord0[n - 2]);
                }
                assert(old(self).wf_node(k));
                assert(old(self).slots@[ord0[k] as int] is Some);
            }
            assert(self@ =~= old(self)@.drop_last());
        }
        Some(node.elem)
    }

    /// Borrows the front element; `None` exactly when the list is empty.
    pub fn peek_front(&self) -> (elem: Option<&T>)
        requires
            self.wf(),
        ensures
            match elem {
                None => self@.len() == 0,
                Some(e) => self@.len() > 0 && *e == self@[0],
            },
    {
        match self.head {
            None => None,
            Some(h) => {
                proof {
                    assert(self.wf_node(0));
                }
                match &self.slots[h] {
                    Some(node) => Some(&node.elem),
                    None => None,
                }
            },
        }
    }

    /// Borrows the front element exclusively; whatever the caller writes
    /// through the borrow replaces the front element.
    pub fn peek_front_mut(&mut self) -> (elem: Option<&mut T>)
        requires
            old(self).wf(),
        ensures
            final(self).wf(),
            match elem {
                None => old(self)@.len() == 0 && *final(self) == *old(self),
                Some(e) => old(self)@.len() > 0 && *e == old(self)@[0] && final(self)@ =~= old(
                    self,
                )@.update(0, *final(e)),
            },
    {
        match self.head {
            None => None,
            Some(h) => {
                proof {
                    assert(old(self).wf_node(0));
                    assert forall|k: int|
                        0 <= k < old(self).order@.len() implies old(self).wf_node(k) && (k == 0
                            || #[trigger] old(self).order@[k] != old(self).order@[0]) by {
                        assert(old(self).wf_node(k));
                    }
                    assert forall|j: int|
                        0 <= j < old(self).free@.len() implies #[trigger] old(self).free@[j]
                            != h by {
                        assert((old(self).free@[j] as int) < old(self).slots@.len());
                    }
                }
                match &mut self.slots[h] {
                    Some(node) => Some(&mut node.elem),
                    None => None,
                }
            },
        }
    }

    /// Borrows the back element; `None` exactly when the list is empty.
    pub fn peek_back(&self) -> (elem: Option<&T>)
        requires
            self.wf(),
        ensures
            match elem {
                None => self@.len() == 0,
                Some(e) => self@.len() > 0 && *e == self@.last(),
            },
    {
        match self.tail {
            None => None,
            Some(t) => {
                proof {
                    assert(self.wf_node(self.order@.len() - 1));
                }
                match &self.slots[t] {
                    Some(node) => Some(&node.elem),
                    None => None,
                }
            },
        }
    }

    /// Borrows the back element exclusively; whatever the caller writes
    /// through the borrow replaces the back element.
    pub fn peek_back_mut(&mut self) -> (elem: Option<&mut T>)
        requires
            old(self).wf(),
        ensures
            final(self).wf(),
            match elem {
                None => old(self)@.len() == 0 && *final(self) == *old(self),
                Some(e) => old(self)@.len() > 0 && *e == old(self)@.last() && final(self)@ =~= old(
                    self,
                )@.update(old(self)@.len() - 1, *final(e)),
            },
    {
        match self.tail {
            None => None,
            Some(t) => {
                proof {
                    let n = old(self).order@.len() as int;
                    assert(old(self).wf_node(n - 1));
                    assert forall|k: int|
                        0 <= k < old(self).order@.len() implies old(self).wf_node(k) && (k == n - 1
                            || #[trigger] old(self).order@[k] != old(self).order@[n - 1]) by {
                        assert(old(self).wf_node(k));
                    }
                    assert forall|j: int|
                        0 <= j < old(self).free@.len() implies #[trigger] old(self).free@[j]
                            != t by {
                        assert((old(self).free@[j] as int) < old(self).slots@.len());
                    }
                }
                match &mut self.slots[t] {
                    Some(node) => Some(&mut node.elem),
                    None => None,
                }
            },
        }
    }

    /// Turns the list into a draining iterator that can be pulled from both
    /// ends.
    pub fn into_iter(self) -> (iter: IntoIter<T>)
        requires
            self.wf(),
        ensures
            iter.wf(),
            iter@ == self@,
    {
        IntoIter(self)
    }

    /// Link symmetry: the forward and the backward link between adjacent
    /// nodes always agree, the head node has no predecessor and is named by
    /// the front anchor, the tail node has no successor and is named by the
    /// back anchor, and the anchors are empty exactly when the list is. So
    /// following `next` from the head reaches the tail in `len - 1` steps,
    /// and following `prev` from the tail reaches the head in the same
    /// number of steps.
    pub proof fn lemma_link_agreement(&self)
        requires
            self.wf(),
        ensures
            forall|k: int|
                0 <= k && k + 1 < self@.len() ==> self.node_next(#[trigger] self.node_index(k))
                    == Some(self.node_index(k + 1) as usize) && self.node_prev(
                    self.node_index(k + 1),
                ) == Some(self.node_index(k) as usize),
            self@.len() > 0 ==> self.head_index() == Some(self.node_index(0) as usize)
                && self.node_prev(self.node_index(0)) is None,
            self@.len() > 0 ==> self.tail_index() == Some(
                self.node_index(self@.len() - 1) as usize,
            ) && self.node_next(self.node_index(self@.len() - 1)) is None,
            self@.len() == 0 <==> self.head_index() is None,
            self@.len() == 0 <==> self.tail_index() is None,
    {
        assert forall|k: int| 0 <= k && k + 1 < self@.len() implies self.node_next(
            #[trigger] self.node_index(k),
        ) == Some(self.node_index(k + 1) as usize) && self.node_prev(self.node_index(k + 1))
            == Some(self.node_index(k) as usize) by {
            assert(self.wf_node(k));
            assert(self.wf_node(k + 1));
        }
        if self@.len() > 0 {
            assert(self.wf_node(0));
            assert(self.wf_node(self@.len() - 1));
        }
    }

    /// Round trip, on the abstract sequence the push and pop contracts
    /// speak of: an element pushed at the front is exactly what the next
    /// pop at the front returns, and popping it restores the sequence that
    /// was there before — and the same at the back. Applied once per
    /// element, this is why draining a list of `n` elements from the pushed
    /// end yields them last-in first-out, and from the opposite end
    /// first-in first-out.
    pub proof fn lemma_push_pop_round_trip(v: Seq<T>, elem: T)
        ensures
            (seq![elem] + v)[0] == elem,
            (seq![elem] + v).drop_first() == v,
            v.push(elem).last() == elem,
            v.push(elem).drop_last() == v,
    {
        assert((seq![elem] + v).drop_first() =~= v);
        assert(v.push(elem).drop_last() =~= v);
    }

    /// No node is lost and none is shared: every live slot stands at exactly
    /// one list position, and every list position names a live slot. In
    /// particular a list holds exactly as many live nodes as elements, and
    /// unlinking a node on pop leaves it reachable from nowhere.
    pub proof fn lemma_no_lost_nodes(&self)
        requires
            self.wf(),
        ensures
            forall|i: int|
                #[trigger] self.live(i) <==> exists|k: int|
                    0 <= k < self@.len() && #[trigger] self.node_index(k) == i,
            forall|k1: int, k2: int|
                0 <= k1 < self@.len() && 0 <= k2 < self@.len() && k1 != k2 ==> self.node_index(k1)
                    != self.node_index(k2),
    {
        assert forall|i: int| #[trigger] self.live(i) implies exists|k: int|
            0 <= k < self@.len() && #[trigger] self.node_index(k) == i by {
            let k0 = choose|k0: int| 0 <= k0 < self.order@.len() && self.order@[k0] == i;
            assert(self.node_index(k0) == i);
        }
        assert forall|i: int|
            (exists|k: int| 0 <= k < self@.len() && #[trigger] self.node_index(k) == i) implies self.live(
            i,
        ) by {
            let k0 = choose|k0: int| 0 <= k0 < self@.len() && self.node_index(k0) == i;
            assert(self.wf_node(k0));
        }
    }
}

impl<T> Default for List<T> {
    fn default() -> (list: Self)
        ensures
            list.wf(),
            list@ == Seq::<T>::empty(),
    {
        List::new()
    }
}

/// Drains a list by value from either end, by handing pop_front and pop_back
/// over; the two ends converge on the same underlying list, and once they
/// have met, both yield `None`.
pub struct IntoIter<T>(List<T>);

impl<T> View for IntoIter<T> {
    type V = Seq<T>;

    closed spec fn view(&self) -> Seq<T> {
        self.0@
    }
}

impl<T> IntoIter<T> {
    /// The underlying list's links are well formed.
    pub closed spec fn wf(&self) -> bool {
        self.0.wf()
    }

    /// Pops the next element from the front; `None` exactly when the list
    /// has been drained.
    pub fn next(&mut self) -> (elem: Option<T>)
        requires
            old(self).wf(),
        ensures
            final(self).wf(),
            match elem {
                None => old(self)@.len() == 0 && final(self)@ == old(self)@,
                Some(e) => old(self)@.len() > 0 && e == old(self)@[0] && final(self)@ == old(
                    self,
                )@.drop_first(),
            },
    {
        self.0.pop_front()
    }

    /// Pops the next element from the back; `None` exactly when the list
    /// has been drained.
    pub fn next_back(&mut self) -> (elem: Option<T>)
        requires
            old(self).wf(),
        ensures
            final(self).wf(),
            match elem {
                None => old(self)@.len() == 0 && final(self)@ == old(self)@,
                Some(e) => old(self)@.len() > 0 && e == old(self)@.last() && final(self)@ == old(
                    self,
                )@.drop_last(),
            },
    {
        self.0.pop_back()
    }
}

} // verus!
