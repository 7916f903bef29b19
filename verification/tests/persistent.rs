use lists::persistent::List;

#[test]
fn heads_and_tails() {
    let list = List::new();
    assert_eq!(list.head(), None);

    // returns a new list instead of mutating.
    let list = list.append(1).append(2).append(3);
    assert_eq!(list.head(), Some(&3));

    // remove the head of the list.
    let list = list.tail();
    assert_eq!(list.head(), Some(&2));

    let list = list.tail();
    assert_eq!(list.head(), Some(&1));

    let list = list.tail();
    assert_eq!(list.head(), None);

    // assert that empty tail works correctly.
    let list = list.tail();
    assert_eq!(list.head(), None);
}

#[test]
fn third_iter() {
    let list = List::new().append(1).append(2).append(3);

    let mut iter = list.iter();
    assert_eq!(iter.next(), Some(&3));
    assert_eq!(iter.next(), Some(&2));
    assert_eq!(iter.next(), Some(&1));
    assert_eq!(iter.next(), None);
}

#[test]
fn third_shared_tails() {
    // several lists may share one chain: taking a tail borrows the rest,
    // and appending to it leaves the original lists untouched.
    let base = List::new().append(1).append(2);
    let longer = base.append(3);
    let other = base.tail().append(9);

    assert_eq!(longer.head(), Some(&3));
    assert_eq!(base.head(), Some(&2));
    assert_eq!(other.head(), Some(&9));

    let mut iter = other.iter();
    assert_eq!(iter.next(), Some(&9));
    assert_eq!(iter.next(), Some(&1));
    assert_eq!(iter.next(), None);
}
