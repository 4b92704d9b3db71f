use bare_list::Node;
use bare_list::SinglyLinkedFreeList;

#[test]
fn singly_lifo_order() {
    let mut list = SinglyLinkedFreeList::default();
    assert!(list.is_empty());
    list.push(Node::from_addr(0x1000));
    list.push(Node::from_addr(0x2000));
    list.push(Node::from_addr(0x3000));
    assert!(!list.is_empty());
    assert_eq!(list.pop(), Some(Node::from_addr(0x3000)));
    assert_eq!(list.pop(), Some(Node::from_addr(0x2000)));
    assert_eq!(list.pop(), Some(Node::from_addr(0x1000)));
    assert!(list.is_empty());
}

#[test]
fn singly_pop_on_empty_returns_none() {
    let mut list = SinglyLinkedFreeList::default();
    assert_eq!(list.pop(), None);
    list.push(Node::from_addr(64));
    assert_eq!(list.pop(), Some(Node::from_addr(64)));
    assert_eq!(list.pop(), None);
    assert!(list.is_empty());
}

#[test]
fn singly_interleaved_push_pop() {
    let mut list = SinglyLinkedFreeList::default();
    list.push(Node::from_addr(1));
    list.push(Node::from_addr(2));
    assert_eq!(list.pop(), Some(Node::from_addr(2)));
    list.push(Node::from_addr(3));
    assert_eq!(list.pop(), Some(Node::from_addr(3)));
    assert_eq!(list.pop(), Some(Node::from_addr(1)));
    assert!(list.is_empty());
}
