//! The doubly-linked free list: O(1) push/pop at the head plus O(n) removal
//! and membership testing by raw address.

use vstd::prelude::*;

use crate::node::Node;
use crate::node::NodeRef;
use crate::node::Slot;

verus! {

/// The view a successful removal leaves behind: the chain without its one
/// cell whose address is `addr`; a chain that never linked `addr` is left
/// unchanged.
pub open spec fn removed_view(v: Seq<u64>, addr: u64) -> Seq<u64> {
    if v.contains(addr) {
        v.remove(v.index_of(addr))
    } else {
        v
    }
}

/// A doubly-linked free list over raw addresses. `push` links a fresh address
/// in front of the chain, `pop` unlinks the head, and `remove` splices out an
/// arbitrary linked address found by scanning the chain. The list owns only
/// the link fields it maintains for its members, never the memory blocks the
/// addresses point into.
///
/// The view is the sequence of linked addresses from head to tail, so the
/// head is `self@[0]` and pushing prepends.
pub struct BareList {
    head: Option<u64>,
    cells: Vec<Slot>,
}

impl View for BareList {
    type V = Seq<u64>;

    closed spec fn view(&self) -> Seq<u64> {
        self.cells@.map(|i: int, c: Slot| c.addr)
    }
}

impl BareList {
    /// The links of the cell at `i`: `next` points at the cell at `i + 1` (or
    /// nowhere when `i` is the tail) and `prev` points at the cell at `i - 1`
    /// (or nowhere when `i` is the head).
    spec fn linked_at(cells: Seq<Slot>, i: int) -> bool {
        &&& cells[i].node.next == if i + 1 < cells.len() {
            Some(cells[i + 1].addr)
        } else {
            None::<u64>
        }
        &&& cells[i].node.prev == if 0 < i {
            Some(cells[i - 1].addr)
        } else {
            None::<u64>
        }
    }

    /// Structural integrity: the `next` chain runs head to tail with no
    /// breaks, every adjacent pair is linked back by `prev`, the head's
    /// `prev` and the tail's `next` are absent, and no address is linked
    /// twice.
    pub closed spec fn wf(&self) -> bool {
        &&& self.head == if self.cells@.len() > 0 {
            Some(self.cells@[0].addr)
        } else {
            None::<u64>
        }
        &&& forall|i: int| 0 <= i < self.cells@.len() ==> Self::linked_at(self.cells@, i)
        &&& self@.no_duplicates()
    }

    /// A well-formed chain links no address twice, so a drained or spliced
    /// chain can never yield a duplicate.
    pub proof fn lemma_wf_no_duplicates(&self)
        requires
            self.wf(),
        ensures
            self@.no_duplicates(),
    {
    }

    /// True iff no address is linked.
    pub fn is_empty(&self) -> (r: bool)
        requires
            self.wf(),
        ensures
            r <==> self@.len() == 0,
    {
        self.head.is_none()
    }

    /// A non-destructive peek at the head: the handle of the most recently
    /// pushed still-linked address, or nothing when the list is empty.
    pub fn head(&self) -> (r: Option<NodeRef>)
        requires
            self.wf(),
        ensures
            match r {
                Some(h) => self@.len() > 0 && h@ == self@[0],
                None => self@.len() == 0,
            },
    {
        match self.head {
            None => None,
            Some(a) => Some(NodeRef { addr: a }),
        }
    }

    /// Links `node` in front of the chain: its `next` becomes the old head,
    /// the old head's `prev` (when there was one) is linked back at it, and
    /// it becomes the new head with no `prev`. The caller guarantees the
    /// address is not already linked into any list.
    pub fn push(&mut self, node: NodeRef)
        requires
            old(self).wf(),
            !old(self)@.contains(node@),
        ensures
            final(self).wf(),
            final(self)@ == seq![node@] + old(self)@,
    {
        let fresh = Node { next: self.head, prev: None };
        if self.cells.len() > 0 {
            let h = self.cells[0];
            self.cells.set(0, Slot { addr: h.addr, node: Node { next: h.node.next, prev: Some(node.addr) } });
        }
        self.cells.insert(0, Slot { addr: node.addr, node: fresh });
        self.head = Some(node.addr);
        proof {
            assert(self@ =~= seq![node@] + old(self)@);
            assert forall|i: int| 0 <= i < self.cells@.len() implies Self::linked_at(
                self.cells@,
                i,
            ) by {
                if i > 0 {
                    assert(Self::linked_at(old(self).cells@, i - 1));
                }
            }
        }
    }

    /// Unlinks and returns the head, the most recently pushed still-linked
    /// address, or returns nothing when the list is empty. When a second cell
    /// exists its `prev` is cleared, re-establishing the new head's missing
    /// backward link.
    pub fn pop(&mut self) -> (r: Option<NodeRef>)
        requires
            old(self).wf(),
        ensures
            final(self).wf(),
            match r {
                Some(h) => old(self)@.len() > 0 && h@ == old(self)@[0] && final(self)@ == old(
                    self,
                )@.drop_first(),
                None => old(self)@.len() == 0 && final(self)@ == old(self)@,
            },
    {
        match self.head {
            None => None,
            Some(a) => {
                let first = self.cells[0];
                if self.cells.len() > 1 {
                    let second = self.cells[1];
                    self.cells.set(1, Slot {
                        addr: second.addr,
                        node: Node { next: second.node.next, prev: first.node.prev },
                    });
                }
                self.cells.remove(0);
                self.head = first.node.next;
                proof {
                    assert(self@ =~= old(self)@.drop_first());
                    assert(Self::linked_at(old(self).cells@, 0));
                    assert forall|i: int| 0 <= i < self.cells@.len() implies Self::linked_at(
                        self.cells@,
                        i,
                    ) by {
                        assert(Self::linked_at(old(self).cells@, i + 1));
                        if i > 0 {
                            assert(Self::linked_at(old(self).cells@, i));
                        }
                    }
                }
                Some(NodeRef { addr: a })
            },
        }
    }

    /// Scans the chain from the head for the cell whose address is `addr`,
    /// following the `next` links in storage order.
    fn find(&self, addr: u64) -> (r: Option<usize>)
        requires
            self.wf(),
        ensures
            match r {
                Some(i) => i < self@.len() && self@[i as int] == addr,
                None => !self@.contains(addr),
            },
    {
        let mut idx: usize = 0;
        while idx < self.cells.len()
            invariant
                self.wf(),
                idx <= self.cells@.len(),
                forall|j: int| 0 <= j < idx ==> self@[j] != addr,
            decreases self.cells@.len() - idx,
        {
            if self.cells[idx].addr == addr {
                return Some(idx);
            }
            idx += 1;
        }
        None
    }

    /// True iff some linked cell's address equals `addr`. Equality is by
    /// address alone; the list is not touched.
    pub fn contains(&self, addr: u64) -> (r: bool)
        requires
            self.wf(),
        ensures
            r <==> self@.contains(addr),
    {
        self.find(addr).is_some()
    }

    /// Splices out the one linked cell whose address equals `addr` and
    /// reports whether one was found: the predecessor's `next` (or, for the
    /// head, `head` itself) is advanced past it and the successor's `prev` is
    /// linked back over it. An address that is not linked — never pushed, or
    /// already popped or removed — leaves the list unchanged.
    pub fn remove(&mut self, addr: u64) -> (r: bool)
        requires
            old(self).wf(),
        ensures
            final(self).wf(),
            r <==> old(self)@.contains(addr),
            final(self)@ == removed_view(old(self)@, addr),
    {
        match self.find(addr) {
            None => false,
            Some(idx) => {
                let cur = self.cells[idx];
                if idx > 0 {
                    let p = self.cells[idx - 1];
                    self.cells.set(idx - 1, Slot {
                        addr: p.addr,
                        node: Node { next: cur.node.next, prev: p.node.prev },
                    });
                } else {
                    self.head = cur.node.next;
                }
                let len = self.cells.len();
                if idx < len - 1 {
                    let n = self.cells[idx + 1];
                    self.cells.set(idx + 1, Slot {
                        addr: n.addr,
                        node: Node { next: n.node.next, prev: cur.node.prev },
                    });
                }
                self.cells.remove(idx);
                proof {
                    self.lemma_remove_rewires(*old(self), idx as int, addr);
                }
                true
            },
        }
    }

    /// After the splice in `remove`, the chain is the old chain without its
    /// cell `idx`, still well formed.
    proof fn lemma_remove_rewires(&self, pre: Self, idx: int, addr: u64)
        requires
            pre.wf(),
            0 <= idx < pre.cells@.len(),
            pre.cells@[idx].addr == addr,
            self.cells@.len() == pre.cells@.len() - 1,
            forall|i: int| 0 <= i < self.cells@.len() && i != idx - 1 && i != idx
                ==> self.cells@[i] == (if i < idx { pre.cells@[i] } else { pre.cells@[i + 1] }),
            idx > 0 ==> self.cells@[idx - 1].addr == pre.cells@[idx - 1].addr
                && self.cells@[idx - 1].node.next == pre.cells@[idx].node.next
                && self.cells@[idx - 1].node.prev == pre.cells@[idx - 1].node.prev,
            idx + 1 < pre.cells@.len() ==> self.cells@[idx].addr == pre.cells@[idx + 1].addr
                && self.cells@[idx].node.next == pre.cells@[idx + 1].node.next
                && self.cells@[idx].node.prev == pre.cells@[idx].node.prev,
            self.head == if idx > 0 {
                pre.head
            } else {
                pre.cells@[idx].node.next
            },
        ensures
            self.wf(),
            self@ == removed_view(pre@, addr),
            pre@.contains(addr),
    {
        assert(pre@[idx] == addr);
        assert(pre@.contains(addr));
        let j = pre@.index_of(addr);
        assert(pre@[j] == addr && 0 <= j < pre@.len());
        assert(j == idx);
        assert(self@ =~= pre@.remove(idx));
        pre@.remove_ensures(idx);
        assert forall|i: int| 0 <= i < self.cells@.len() implies Self::linked_at(
            self.cells@,
            i,
        ) by {
            assert(Self::linked_at(pre.cells@, i));
            assert(Self::linked_at(pre.cells@, i + 1));
            assert(Self::linked_at(pre.cells@, idx));
            if i > 0 {
                assert(Self::linked_at(pre.cells@, i - 1));
            }
        }
        if idx > 0 {
            assert(self.cells@[0].addr == pre.cells@[0].addr);
        } else {
            assert(Self::linked_at(pre.cells@, 0));
            if self.cells@.len() > 0 {
                assert(self.cells@[0].addr == pre.cells@[1].addr);
            }
        }
        assert forall|a: int, b: int|
            0 <= a < self@.len() && 0 <= b < self@.len() && a != b implies self@[a]
                != self@[b] by {
            assert(self@[a] == pre@.remove(idx)[a]);
            assert(self@[b] == pre@.remove(idx)[b]);
        }
        assert(self@.no_duplicates());
    }
}

impl Default for BareList {
    /// An empty list: no head, no linked addresses.
    fn default() -> (r: Self)
        ensures
            r.wf(),
            r@ == Seq::<u64>::empty(),
    {
        let r = BareList { head: None, cells: Vec::new() };
        proof {
            assert(r@ =~= Seq::<u64>::empty());
        }
        r
    }
}

} // verus!
