//! The core of a tracing mark-and-sweep garbage collector.
//!
//! Cells live in an arena and are threaded into a singly-linked heap list;
//! handles are non-null addresses. A collection marks every cell that a set
//! of roots reaches, cycles included, then sweeps the list once, reclaiming
//! the unmarked cells and clearing the marks of the rest.
pub mod heap;
pub mod invariant_non_null;
pub mod just_non_null;
pub mod laws;
pub mod model;

pub use heap::{collect_garbage, mark_all, sweep, Heap, Object, TrackedObject};
pub use invariant_non_null::InvariantNonNull;
pub use just_non_null::JustNonNull;
