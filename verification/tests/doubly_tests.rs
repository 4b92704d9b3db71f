use std::mem::size_of;

use bare_list::BareList;
use bare_list::Node;

#[test]
fn basic_test() {
    let mut bare_ll = BareList::default();
    let addr0: u64 = 4096;
    let addr1 = addr0 + size_of::<Node>() as u64;
    let addr2 = addr1 + size_of::<Node>() as u64;

    bare_ll.push(Node::from_addr(addr0));

    bare_ll.push(Node::from_addr(addr1));

    bare_ll.push(Node::from_addr(addr2));

    assert_eq!(bare_ll.pop(), Some(Node::from_addr(addr2)));
    assert_eq!(bare_ll.pop(), Some(Node::from_addr(addr1)));
    assert_eq!(bare_ll.pop(), Some(Node::from_addr(addr0)));

    assert!(bare_ll.is_empty());
}

#[test]
fn contain_remove_test() {
    let mut bare_ll = BareList::default();
    let addr0: u64 = 4096;
    let addr1 = addr0 + size_of::<Node>() as u64;
    let addr2 = addr1 + size_of::<Node>() as u64;

    bare_ll.push(Node::from_addr(addr0));

    bare_ll.push(Node::from_addr(addr1));

    bare_ll.push(Node::from_addr(addr2));

    assert!(bare_ll.contains(addr1));
    assert!(bare_ll.remove(addr1));
    assert!(!bare_ll.contains(addr1));

    assert!(bare_ll.remove(addr0));
    assert!(bare_ll.remove(addr2));

    assert!(bare_ll.is_empty());
}

#[test]
fn contain_remove_test_2() {
    let mut bare_ll = BareList::default();
    let addr0: u64 = 4096;
    let addr1 = addr0 + size_of::<Node>() as u64;
    let addr2 = addr1 + size_of::<Node>() as u64;

    bare_ll.push(Node::from_addr(addr0));

    bare_ll.push(Node::from_addr(addr1));

    bare_ll.push(Node::from_addr(addr2));

    assert!(bare_ll.contains(addr0));
    assert!(bare_ll.remove(addr0));
    assert!(!bare_ll.contains(addr0));

    assert!(bare_ll.contains(addr1));
    assert!(bare_ll.remove(addr1));
    assert!(!bare_ll.contains(addr1));

    assert!(bare_ll.contains(addr2));
    assert!(bare_ll.remove(addr2));
    assert!(!bare_ll.contains(addr2));

    assert!(bare_ll.is_empty());
}

#[test]
fn contain_remove_test_3() {
    let mut bare_ll = BareList::default();
    let addr0: u64 = 4096;
    let addr1 = addr0 + size_of::<Node>() as u64;
    let addr2 = addr1 + size_of::<Node>() as u64;

    bare_ll.push(Node::from_addr(addr0));

    bare_ll.push(Node::from_addr(addr1));

    bare_ll.push(Node::from_addr(addr2));

    assert!(bare_ll.contains(addr2));
    assert!(bare_ll.remove(addr2));
    assert!(!bare_ll.contains(addr2));

    assert_eq!(bare_ll.pop(), Some(Node::from_addr(addr1)));

    assert!(bare_ll.contains(addr0));
    assert!(bare_ll.remove(addr0));
    assert!(!bare_ll.contains(addr0));

    assert!(bare_ll.is_empty());
}

#[test]
fn contain_remove_test_4() {
    let mut bare_ll = BareList::default();
    let addr0: u64 = 4096;
    let addr1 = addr0 + size_of::<Node>() as u64;
    let addr2 = addr1 + size_of::<Node>() as u64;

    bare_ll.push(Node::from_addr(addr0));

    bare_ll.push(Node::from_addr(addr1));

    bare_ll.push(Node::from_addr(addr2));

    assert!(bare_ll.contains(addr2));
    assert!(bare_ll.remove(addr2));
    assert!(!bare_ll.contains(addr2));

    assert!(bare_ll.contains(addr1));
    assert!(bare_ll.remove(addr1));
    assert!(!bare_ll.contains(addr1));

    assert!(bare_ll.contains(addr0));
    assert!(bare_ll.remove(addr0));
    assert!(!bare_ll.contains(addr0));

    assert!(bare_ll.is_empty());
}

#[test]
fn stack_of_two_addresses() {
    let mut list = BareList::default();
    list.push(Node::from_addr(0x100));
    list.push(Node::from_addr(0x200));
    assert_eq!(list.pop(), Some(Node::from_addr(0x200)));
    assert_eq!(list.pop(), Some(Node::from_addr(0x100)));
    assert!(list.is_empty());
}

#[test]
fn pop_on_empty_returns_none() {
    let mut list = BareList::default();
    assert_eq!(list.pop(), None);
    assert!(list.is_empty());
    list.push(Node::from_addr(8));
    assert_eq!(list.pop(), Some(Node::from_addr(8)));
    assert_eq!(list.pop(), None);
}

#[test]
fn head_peeks_without_unlinking() {
    let mut list = BareList::default();
    assert_eq!(list.head(), None);
    list.push(Node::from_addr(0x10));
    list.push(Node::from_addr(0x20));
    assert_eq!(list.head(), Some(Node::from_addr(0x20)));
    assert_eq!(list.head(), Some(Node::from_addr(0x20)));
    assert_eq!(list.pop(), Some(Node::from_addr(0x20)));
    assert_eq!(list.head(), Some(Node::from_addr(0x10)));
}

#[test]
fn round_trip_membership() {
    let mut list = BareList::default();
    assert!(!list.contains(0x40));
    list.push(Node::from_addr(0x40));
    assert!(list.contains(0x40));
    assert!(list.remove(0x40));
    assert!(!list.contains(0x40));
    assert!(list.is_empty());
}

#[test]
fn negative_removal_is_idempotent() {
    let mut list = BareList::default();
    assert!(!list.remove(0x99));
    list.push(Node::from_addr(0x10));
    list.push(Node::from_addr(0x20));
    assert!(!list.remove(0x99));
    assert!(list.remove(0x10));
    assert!(!list.remove(0x10));
    // the untouched remainder still pops in LIFO order
    assert_eq!(list.pop(), Some(Node::from_addr(0x20)));
    assert!(list.is_empty());
}

#[test]
fn remove_sole_element_clears_list() {
    let mut list = BareList::default();
    list.push(Node::from_addr(0x7000));
    assert!(list.remove(0x7000));
    assert!(list.is_empty());
    assert_eq!(list.pop(), None);
}

#[test]
fn remove_tail_then_drain() {
    let mut list = BareList::default();
    list.push(Node::from_addr(1));
    list.push(Node::from_addr(2));
    list.push(Node::from_addr(3));
    // address 1 is the tail
    assert!(list.remove(1));
    assert_eq!(list.pop(), Some(Node::from_addr(3)));
    assert_eq!(list.pop(), Some(Node::from_addr(2)));
    assert!(list.is_empty());
}

#[test]
fn arbitrary_order_removal_keeps_relative_order() {
    let mut list = BareList::default();
    for addr in [11u64, 22, 33, 44, 55] {
        list.push(Node::from_addr(addr));
    }
    // view is 55, 44, 33, 22, 11; remove a scattered subset in scrambled order
    assert!(list.remove(44));
    assert!(list.remove(11));
    assert!(list.remove(55));
    // the remaining addresses drain most-recent-first with no gaps
    assert_eq!(list.pop(), Some(Node::from_addr(33)));
    assert_eq!(list.pop(), Some(Node::from_addr(22)));
    assert_eq!(list.pop(), None);
    assert!(list.is_empty());
}

#[test]
fn reuse_after_drain() {
    let mut list = BareList::default();
    list.push(Node::from_addr(5));
    assert_eq!(list.pop(), Some(Node::from_addr(5)));
    list.push(Node::from_addr(5));
    assert!(list.contains(5));
    assert!(list.remove(5));
    assert!(list.is_empty());
}
