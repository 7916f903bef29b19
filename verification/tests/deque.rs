use std::cell::Cell;
use std::rc::Rc;

use lists::deque::List;

/// An element that reports its release, for checking that every pushed
/// element is released exactly once.
struct Counted {
    value: i32,
    live: Rc<Cell<i32>>,
}

impl Counted {
    fn new(value: i32, live: &Rc<Cell<i32>>) -> Counted {
        live.set(live.get() + 1);
        Counted { value, live: Rc::clone(live) }
    }
}

impl Drop for Counted {
    fn drop(&mut self) {
        self.live.set(self.live.get() - 1);
    }
}

#[test]
fn fourth_push_and_pop() {
    let mut list = List::new();

    // check empty list behaves correctly
    assert_eq!(list.pop_front(), None);

    list.push_front(2);
    list.push_front(3);
    list.push_back(1);

    // check normal removal
    assert_eq!(list.pop_front(), Some(3));
    assert_eq!(list.pop_front(), Some(2));

    // push more to make sure nothing is corrupted
    list.push_front(4);
    list.push_front(5);

    // check normal removal
    assert_eq!(list.pop_front(), Some(5));
    assert_eq!(list.pop_front(), Some(4));

    // check exhaustion
    assert_eq!(list.pop_front(), Some(1));
    assert_eq!(list.pop_front(), None);
}

#[test]
fn fourth_peek() {
    let mut list = List::new();

    // immutable peeks
    assert!(list.peek_front().is_none());
    assert!(list.peek_back().is_none());

    // mutable peeks
    assert!(list.peek_front_mut().is_none());
    assert!(list.peek_back_mut().is_none());

    list.push_front(2);
    list.push_front(3);
    list.push_back(1);

    assert_eq!(&*list.peek_front().unwrap(), &3);
    assert_eq!(&mut *list.peek_front_mut().unwrap(), &mut 3);

    assert_eq!(&*list.peek_back_mut().unwrap(), &1);
    assert_eq!(&mut *list.peek_back_mut().unwrap(), &mut 1);
}

#[test]
fn fourth_into_iter() {
    let mut list = List::new();

    list.push_front(2);
    list.push_front(3);
    list.push_back(1);

    let mut iter = list.into_iter();
    assert_eq!(iter.next(), Some(3));
    assert_eq!(iter.next_back(), Some(1));
    assert_eq!(iter.next(), Some(2));
    assert_eq!(iter.next_back(), None);
    assert_eq!(iter.next(), None);
}

#[test]
fn deque_pop_empty_is_no_element() {
    let mut list: List<i32> = List::new();

    // popping an empty list reports "no element" from either end, and the
    // list keeps behaving as a fresh one afterwards.
    assert_eq!(list.pop_front(), None);
    assert_eq!(list.pop_back(), None);
    assert_eq!(list.pop_front(), None);

    list.push_front(7);
    assert_eq!(list.pop_back(), Some(7));
    assert_eq!(list.pop_back(), None);
    assert_eq!(list.pop_front(), None);
}

#[test]
fn deque_interleaved_pops() {
    let mut list = List::new();
    list.push_front(1);
    list.push_front(2);
    list.push_front(3);

    assert_eq!(list.pop_front(), Some(3));
    assert_eq!(list.pop_front(), Some(2));

    // the single remaining element comes out of either end,
    assert_eq!(list.pop_back(), Some(1));

    // and afterwards both ends report "no element".
    assert_eq!(list.pop_front(), None);
    assert_eq!(list.pop_back(), None);
}

#[test]
fn deque_peek_after_pop() {
    let mut list = List::new();
    list.push_front(2);
    list.push_front(3);
    list.push_back(1);

    assert_eq!(list.pop_front(), Some(3));
    assert_eq!(&mut *list.peek_front_mut().unwrap(), &mut 2);
    assert_eq!(&mut *list.peek_back_mut().unwrap(), &mut 1);
}

#[test]
fn deque_peek_mut_writes_through() {
    let mut list = List::new();
    list.push_front(2);
    list.push_back(1);

    *list.peek_front_mut().unwrap() = 20;
    *list.peek_back_mut().unwrap() = 10;

    assert_eq!(list.pop_front(), Some(20));
    assert_eq!(list.pop_front(), Some(10));
    assert_eq!(list.pop_front(), None);
}

#[test]
fn deque_round_trip_pop_front_only() {
    let live = Rc::new(Cell::new(0));
    let mut list = List::new();
    for v in 0..8 {
        list.push_front(Counted::new(v, &live));
    }
    assert_eq!(live.get(), 8);

    // draining from the pushed end yields the elements in LIFO order,
    let mut drained = Vec::new();
    while let Some(c) = list.pop_front() {
        drained.push(c.value);
    }
    assert_eq!(drained, vec![7, 6, 5, 4, 3, 2, 1, 0]);

    // and every pushed element has been released exactly once.
    assert_eq!(live.get(), 0);
}

#[test]
fn deque_round_trip_pop_back_only() {
    let live = Rc::new(Cell::new(0));
    let mut list = List::new();
    for v in 0..8 {
        list.push_front(Counted::new(v, &live));
    }

    // draining from the opposite end yields the elements in FIFO order,
    let mut drained = Vec::new();
    while let Some(c) = list.pop_back() {
        drained.push(c.value);
    }
    assert_eq!(drained, vec![0, 1, 2, 3, 4, 5, 6, 7]);

    // and every pushed element has been released exactly once.
    assert_eq!(live.get(), 0);
}

#[test]
fn deque_discard_releases_all_nodes() {
    let live = Rc::new(Cell::new(0));
    let mut list = List::new();
    for v in 0..5 {
        list.push_back(Counted::new(v, &live));
    }
    assert_eq!(live.get(), 5);

    // discarding the list without draining it still releases every node.
    drop(list);
    assert_eq!(live.get(), 0);
}

#[test]
fn deque_converging_ends_meet_in_the_middle() {
    let mut list = List::new();
    for v in 1..6 {
        list.push_back(v);
    }

    let mut iter = list.into_iter();
    assert_eq!(iter.next(), Some(1));
    assert_eq!(iter.next_back(), Some(5));
    assert_eq!(iter.next(), Some(2));
    assert_eq!(iter.next_back(), Some(4));

    // the odd element in the middle goes to whichever end pulls next,
    assert_eq!(iter.next_back(), Some(3));

    // and then both directions are exhausted.
    assert_eq!(iter.next(), None);
    assert_eq!(iter.next_back(), None);
}
