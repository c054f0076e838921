//! A fixed-capacity buddy-system allocator over an arena of uniform frames.
//!
//! The allocator partitions `count` addressable units into power-of-two-sized
//! blocks, serves requests for blocks of `2^order` units, and coalesces freed
//! blocks with their buddies.  All bookkeeping (order, used flag, free-list
//! links) lives inside the managed frames themselves: the per-order free lists
//! are intrusive doubly-linked lists whose link fields are integer indices
//! into the arena, so the allocator never allocates auxiliary memory per
//! frame.

pub mod buddy;
pub mod list;

pub use buddy::BuddyAllocator;
pub use buddy::Frame;
pub use buddy::MAX_ORDER;
pub use list::LinkedList;
pub use list::Node;
pub use list::NIL;
