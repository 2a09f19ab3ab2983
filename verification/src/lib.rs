//! A fixed-capacity key/value cache with the CART (clock with adaptive
//! replacement) eviction policy.
//!
//! [`CartCache`] keeps its resident entries in a recency queue and a
//! frequency queue, and remembers the keys it evicted in two history lists.
//! What each operation does is stated over the cache's state as
//! [`model::Cart`] describes it; [`laws`] holds what follows for every
//! state and every sequence of operations.

pub mod arena;
pub mod cache;
pub mod laws;
pub mod list;
pub mod model;
pub mod seqs;

pub use cache::CartCache;
pub use list::XLinkedList;
