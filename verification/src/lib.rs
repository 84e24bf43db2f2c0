//! Bounded top-k merge kernel for nearest-neighbor candidate lists.
//!
//! A similarity query scans vector data chunk by chunk; each chunk yields a
//! small sorted list of its locally closest candidates. This crate provides
//! the two primitives that combine those partial results into one globally
//! bounded top-k list:
//!
//! * [`select::select_min_k`] — given an unsorted array of distance keys,
//!   the indices of the k smallest values, in ascending order, ties broken
//!   by the lower original index;
//! * [`merge::merge_bounded`] — given two sorted candidate streams (the
//!   second presented through an index permutation over unsorted backing
//!   arrays), their merge, sorted ascending and truncated to a bound.
//!
//! Distances are totally ordered `u32` keys. A caller holding IEEE-754
//! scores maps them to keys through any order-preserving embedding (for
//! non-negative floats, the raw bit pattern) before entering the kernel.

pub mod list;
pub mod merge;
pub mod select;
