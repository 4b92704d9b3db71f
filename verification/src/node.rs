//! The link-field layout overlaid on a caller-given address, and the opaque
//! handle that stands for "the Node living at this address".

use vstd::prelude::*;

verus! {

/// The link fields of one list member. Conceptually these fields live inside
/// the caller's memory block at the member's address; a list owns them (and
/// nothing else of the block) for exactly as long as the address is linked.
/// `next` is present unless the member is the tail; `prev` is used by the
/// doubly-linked variant only and is present unless the member is the head.
#[derive(Clone, Copy)]
pub struct Node {
    pub(crate) next: Option<u64>,
    pub(crate) prev: Option<u64>,
}

/// An opaque handle for a Node: a raw address, nothing more. Identity is the
/// address; two handles denote the same Node exactly when they are equal.
/// The handle carries no payload and confers no access to the memory behind
/// the address.
#[derive(Clone, Copy, Debug, PartialEq, Eq, Structural)]
pub struct NodeRef {
    /// The raw address this handle stands for.
    pub addr: u64,
}

impl View for NodeRef {
    type V = u64;

    open spec fn view(&self) -> u64 {
        self.addr
    }
}

/// One cell of a list's owned link storage: an address together with the link
/// fields the list maintains for it.
#[derive(Clone, Copy)]
pub(crate) struct Slot {
    pub(crate) addr: u64,
    pub(crate) node: Node,
}

impl Node {
    /// The forward link, as an address: `None` iff this Node is a tail or unlinked.
    pub closed spec fn next_link(&self) -> Option<u64> {
        self.next
    }

    /// The backward link, as an address: `None` iff this Node is a head or unlinked.
    pub closed spec fn prev_link(&self) -> Option<u64> {
        self.prev
    }

    /// Fresh, unlinked link fields.
    pub fn new() -> (r: Self)
        ensures
            r.next_link() is None,
            r.prev_link() is None,
    {
        Node { next: None, prev: None }
    }

    /// True iff this Node's forward link is absent, i.e. it is the tail of
    /// whatever chain it is in, or not linked at all. A historical accessor,
    /// not a membership test.
    pub fn is_empty(&self) -> (r: bool)
        ensures
            r <==> self.next_link() is None,
    {
        self.next.is_none()
    }

    /// Interprets `addr` as the location of a Node and hands back the handle
    /// for it. The caller must supply a non-zero address it owns; whether the
    /// bytes behind it are large enough and suitably aligned for link fields
    /// is entirely the caller's responsibility.
    pub fn from_addr(addr: u64) -> (r: NodeRef)
        requires
            addr != 0,
        ensures
            r@ == addr,
    {
        NodeRef { addr }
    }
}

impl Default for Node {
    /// Same as `Node::new`: fresh, unlinked link fields.
    fn default() -> (r: Self)
        ensures
            r.next_link() is None,
            r.prev_link() is None,
    {
        Node { next: None, prev: None }
    }
}

} // verus!
