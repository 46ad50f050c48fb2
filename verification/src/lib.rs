//! Integer core of an adaptive curve flattener.
//!
//! A cubic is approximated by spiral segments found by repeated bisection of
//! its parameter range, and every segment is then cut into straight chords.
//! This crate holds the exact, integer part of that pipeline: the bisection
//! work-list over dyadic parameter spans, the plan of sample parameters that
//! the chords are drawn through, and the bounds put on subdivision counts.
//! The curve fitting itself is numeric and is supplied by the caller, one
//! verdict or count at a time. The decisions of the benchmark front end that
//! measures the flattener are here too.

pub mod decompose;
pub mod plan;
pub mod estimate;
pub mod bench;
pub mod filter;
