use custom_set::linked_list::SimpleLinkedList;

#[test]
fn new_list_is_empty() {
    let list = SimpleLinkedList::<u16>::new();
    assert!(list.is_empty());
    assert_eq!(list.len(), 0);
    assert!(list.peek().is_none());
}

#[test]
fn push_pop_is_last_in_first_out() {
    let mut list = SimpleLinkedList::new();
    list.push(1u16);
    list.push(2);
    list.push(3);
    assert!(!list.is_empty());
    assert_eq!(list.len(), 3);
    assert_eq!(list.pop(), Some(3));
    assert_eq!(list.pop(), Some(2));
    assert_eq!(list.pop(), Some(1));
    assert_eq!(list.pop(), None);
    assert!(list.is_empty());
}

#[test]
fn peek_shows_front_without_removal() {
    let mut list = SimpleLinkedList::new();
    list.push(4u16);
    list.push(9);
    assert_eq!(list.peek().copied(), Some(9));
    assert_eq!(list.len(), 2);
    assert_eq!(list.pop(), Some(9));
    assert_eq!(list.peek().copied(), Some(4));
}

#[test]
fn rev_reverses_order() {
    let mut list = SimpleLinkedList::new();
    list.push(1u16);
    list.push(2);
    list.push(3);
    let mut reversed = list.rev();
    assert_eq!(reversed.len(), 3);
    assert_eq!(reversed.pop(), Some(1));
    assert_eq!(reversed.pop(), Some(2));
    assert_eq!(reversed.pop(), Some(3));
}

#[test]
fn iter_walks_front_to_back() {
    let mut list = SimpleLinkedList::new();
    list.push(1u16);
    list.push(2);
    list.push(3);
    let mut iter = list.iter();
    assert_eq!(iter.next().copied(), Some(3));
    assert_eq!(iter.next().copied(), Some(2));
    assert_eq!(iter.next().copied(), Some(1));
    assert!(iter.next().is_none());
}

#[test]
fn contains_finds_pushed_values() {
    let mut list = SimpleLinkedList::new();
    list.push(10u16);
    list.push(20);
    assert!(list.contains(&10));
    assert!(list.contains(&20));
    assert!(!list.contains(&30));
}

#[test]
fn into_vec_restores_insertion_order() {
    let mut list = SimpleLinkedList::new();
    list.push(1u16);
    list.push(2);
    list.push(3);
    let v = list.into_vec();
    assert_eq!(v, vec![1, 2, 3]);
}
