//! An in-place comparison sort over a vector, parameterized by a strict
//! ordering predicate supplied as a closure.
//!
//! The `order` module gives the predicate a mathematical reading; the
//! `quicksort` module holds the partition/recursion algorithm together with
//! its contracts.

pub mod order;
pub mod quicksort;
