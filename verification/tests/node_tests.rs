use bare_list::Node;
use bare_list::NodeRef;

#[test]
fn fresh_node_is_empty() {
    let node = Node::new();
    assert!(node.is_empty());
    let by_default = Node::default();
    assert!(by_default.is_empty());
}

#[test]
fn from_addr_keeps_the_address() {
    let handle = Node::from_addr(0xdead_0000);
    assert_eq!(handle.addr, 0xdead_0000);
    assert_eq!(handle, NodeRef { addr: 0xdead_0000 });
}

#[test]
fn handles_compare_by_address() {
    assert_eq!(Node::from_addr(16), Node::from_addr(16));
    assert_ne!(Node::from_addr(16), Node::from_addr(32));
}
