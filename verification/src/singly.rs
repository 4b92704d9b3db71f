//! The singly-linked free list: a LIFO chain of addresses reached through a
//! single `next` pointer per member.

use vstd::prelude::*;

use crate::node::Node;
use crate::node::NodeRef;
use crate::node::Slot;

verus! {

/// A LIFO free list over raw addresses. `push` links a fresh address in front
/// of the chain and `pop` unlinks and returns the most recently pushed one.
/// The list owns only the link fields it maintains for its members, never the
/// memory blocks the addresses point into.
///
/// The view is the sequence of linked addresses from head to tail, so the
/// head is `self@[0]` and pushing prepends.
pub struct SinglyLinkedFreeList {
    head: Option<u64>,
    cells: Vec<Slot>,
}

impl View for SinglyLinkedFreeList {
    type V = Seq<u64>;

    closed spec fn view(&self) -> Seq<u64> {
        self.cells@.map(|i: int, c: Slot| c.addr)
    }
}

impl SinglyLinkedFreeList {
    /// The forward link of the cell at `i` points at the cell at `i + 1`,
    /// or nowhere when `i` is the tail.
    spec fn linked_at(cells: Seq<Slot>, i: int) -> bool {
        cells[i].node.next == if i + 1 < cells.len() {
            Some(cells[i + 1].addr)
        } else {
            None::<u64>
        }
    }

    /// Structural integrity: the chain of `next` links runs head to tail with
    /// no breaks, and no address is linked twice.
    pub closed spec fn wf(&self) -> bool {
        &&& self.head == if self.cells@.len() > 0 {
            Some(self.cells@[0].addr)
        } else {
            None::<u64>
        }
        &&& forall|i: int| 0 <= i < self.cells@.len() ==> Self::linked_at(self.cells@, i)
        &&& self@.no_duplicates()
    }

    /// True iff no address is linked.
    pub fn is_empty(&self) -> (r: bool)
        requires
            self.wf(),
        ensures
            r <==> self@.len() == 0,
    {
        self.head.is_none()
    }

    /// Links `node` in front of the chain: its `next` becomes the old head
    /// (absent when the list was empty) and it becomes the new head. The
    /// caller guarantees the address is not already linked into any list.
    pub fn push(&mut self, node: NodeRef)
        requires
            old(self).wf(),
            !old(self)@.contains(node@),
        ensures
            final(self).wf(),
            final(self)@ == seq![node@] + old(self)@,
    {
        let fresh = Node { next: self.head, prev: None };
        self.cells.insert(0, Slot { addr: node.addr, node: fresh });
        self.head = Some(node.addr);
        proof {
            assert(self@ =~= seq![node@] + old(self)@);
            assert forall|i: int| 0 <= i < self.cells@.len() implies Self::linked_at(
                self.cells@,
                i,
            ) by {
                if i > 0 {
                    assert(Self::linked_at(old(self).cells@, i - 1));
                }
            }
        }
    }

    /// Unlinks and returns the head, the most recently pushed still-linked
    /// address, or returns nothing when the list is empty.
    pub fn pop(&mut self) -> (r: Option<NodeRef>)
        requires
            old(self).wf(),
        ensures
            final(self).wf(),
            match r {
                Some(h) => old(self)@.len() > 0 && h@ == old(self)@[0] && final(self)@ == old(
                    self,
                )@.drop_first(),
                None => old(self)@.len() == 0 && final(self)@ == old(self)@,
            },
    {
        match self.head {
            None => None,
            Some(a) => {
                let first = self.cells[0];
                self.cells.remove(0);
                self.head = first.node.next;
                proof {
                    assert(self@ =~= old(self)@.drop_first());
                    assert(Self::linked_at(old(self).cells@, 0));
                    assert forall|i: int| 0 <= i < self.cells@.len() implies Self::linked_at(
                        self.cells@,
                        i,
                    ) by {
                        assert(Self::linked_at(old(self).cells@, i + 1));
                    }
                }
                Some(NodeRef { addr: a })
            },
        }
    }
}

impl Default for SinglyLinkedFreeList {
    /// An empty list: no head, no linked addresses.
    fn default() -> (r: Self)
        ensures
            r.wf(),
            r@ == Seq::<u64>::empty(),
    {
        let r = SinglyLinkedFreeList { head: None, cells: Vec::new() };
        proof {
            assert(r@ =~= Seq::<u64>::empty());
        }
        r
    }
}

} // verus!
