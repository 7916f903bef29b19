use lists::queue::List;

#[test]
fn fifth_push_and_pop() {
    let mut list = List::new();

    // check empty list behaves right
    assert_eq!(list.pop(), None);

    // populate list.
    list.push(1);
    list.push(2);
    list.push(3);

    // check normal removal.
    assert_eq!(list.pop(), Some(1));
    assert_eq!(list.pop(), Some(2));

    // push some more to make sure nothing is corrupted.
    list.push(4);
    list.push(5);

    // check normal removal.
    assert_eq!(list.pop(), Some(3));
    assert_eq!(list.pop(), Some(4));

    // check exhaustion.
    assert_eq!(list.pop(), Some(5));
    assert_eq!(list.pop(), None);
}

#[test]
fn fifth_into_iter() {
    let mut list = List::new();
    list.push(1);
    list.push(2);
    list.push(3);

    let mut iter = list.into_iter();
    assert_eq!(iter.next(), Some(1));
    assert_eq!(iter.next(), Some(2));
    assert_eq!(iter.next(), Some(3));
    assert_eq!(iter.next(), None);
}

#[test]
fn fifth_iter() {
    let mut list = List::new();
    list.push(1);
    list.push(2);
    list.push(3);

    let mut iter = list.iter();
    assert_eq!(iter.next(), Some(&1));
    assert_eq!(iter.next(), Some(&2));
    assert_eq!(iter.next(), Some(&3));
    assert_eq!(iter.next(), None);
}

#[test]
fn fifth_iter_mut() {
    let mut list = List::new();
    list.push(1);
    list.push(2);
    list.push(3);

    let mut iter = list.iter_mut();
    assert_eq!(iter.next(), Some(&mut 1));
    assert_eq!(iter.next(), Some(&mut 2));
    assert_eq!(iter.next(), Some(&mut 3));
    assert_eq!(iter.next(), None);
}

#[test]
fn queue_peek() {
    let mut list = List::new();
    assert_eq!(list.peek(), None);
    assert_eq!(list.peek_mut(), None);

    list.push(1);
    list.push(2);

    // the queue peeks at the front: the first element pushed.
    assert_eq!(list.peek(), Some(&1));
    assert_eq!(list.peek_mut(), Some(&mut 1));

    *list.peek_mut().unwrap() = 42;
    assert_eq!(list.peek(), Some(&42));
    assert_eq!(list.pop(), Some(42));
    assert_eq!(list.pop(), Some(2));
}

#[test]
fn queue_reuses_freed_slots() {
    let mut list = List::new();
    for v in 0..4 {
        list.push(v);
    }
    assert_eq!(list.pop(), Some(0));
    assert_eq!(list.pop(), Some(1));
    list.push(4);
    list.push(5);

    let mut iter = list.iter();
    assert_eq!(iter.next(), Some(&2));
    assert_eq!(iter.next(), Some(&3));
    assert_eq!(iter.next(), Some(&4));
    assert_eq!(iter.next(), Some(&5));
    assert_eq!(iter.next(), None);
}

#[test]
fn queue_iter_mut_writes_through() {
    let mut list = List::new();
    list.push(1);
    list.push(2);

    {
        let mut iter = list.iter_mut();
        while let Some(val) = iter.next() {
            *val += 10;
        }
    }

    assert_eq!(list.pop(), Some(11));
    assert_eq!(list.pop(), Some(12));
    assert_eq!(list.pop(), None);
}
