//! Intrusive free-list primitives for low-level memory managers.
//!
//! Two list variants link caller-supplied raw addresses into chains without
//! allocating: a singly-linked stack-discipline free list (push/pop) and a
//! doubly-linked free list that additionally supports O(n) removal and
//! membership testing by address. The lists manage only the link relationships
//! between addresses; the backing memory's lifetime is entirely the caller's
//! concern.

pub mod doubly;
pub mod laws;
pub mod node;
pub mod singly;

pub use doubly::BareList;
pub use node::Node;
pub use node::NodeRef;
pub use singly::SinglyLinkedFreeList;
