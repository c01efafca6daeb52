//! A persistent "frecency" table: a mapping from byte-string keys to a
//! time-decayed usage score, used to rank items by a blend of recent and
//! historical access frequency.
//!
//! The library owns the table's data model, its mutation algebra (decay,
//! bump, expire, augment, restrict, delete), the deterministic ranking
//! order, and the binary persistence codec, all of them verified.
//!
//! Scores are 64-bit IEEE-754 values. The verifier works on integers, so
//! the library stores each score as its bit pattern (a `u64`) and never
//! performs floating-point arithmetic itself: comparisons and NaN tests
//! are integer reads of the pattern, proved against the spec-level order
//! in [`order`], while the numeric kernels that produce new patterns
//! (decay factors, the "+1" of a bump, dot products) run with the caller,
//! which hands the resulting patterns back in.

pub mod codec;
pub mod order;
pub mod score;
pub mod table;
