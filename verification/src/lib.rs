//! A bounded, lazily growing object pool core.
//!
//! The pool hands out exclusive access to at most `max` entries, each an
//! identity-tagged holder of one resource handle. Entries are constructed
//! lazily by growth steps and reused most-recently-returned-first: the entry
//! queue keeps claimed entries toward the head and available entries toward
//! the tail, checkout takes the tail, and return reinserts at the tail.
//! A permit count models the admission gate; permits and queue partition are
//! kept consistent by the invariant that the permit count never exceeds the
//! queue length, the excess being exactly the outstanding checkouts.

mod model;
mod pool;

pub use model::{EntryModel, PoolModel};
pub use pool::{Pool, PoolGuard, PoolTransformer};
