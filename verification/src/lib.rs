//! Verified core of a whale-optimisation search for constrained clustering.
//!
//! Scores, distances and coordinates are single-precision floats; the library
//! holds each one as its IEEE-754 bit pattern (`u32`) and decides by exact
//! comparisons on those patterns. Arithmetic on the floats themselves is done
//! by the caller.

pub mod ieee;
pub mod ranking;
pub mod assignment;
pub mod random;
pub mod bounds;
pub mod search;
pub mod mutation;
