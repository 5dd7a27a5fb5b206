//! A square grid partitioned into disjoint, exhaustive regions.
//!
//! Every cell holds one of three states: vacant, a digit in `0..=9`, or
//! shaded.  Construction validates that the supplied region layout claims
//! every coordinate of the grid exactly once; mutation keeps the cell array
//! and the region index consistent.
#![verifier::loop_isolation(false)]

pub mod cell;
pub mod grid;
pub mod region;
pub mod render;
