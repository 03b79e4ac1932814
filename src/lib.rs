//! Copy-on-write snapshot cells, and sets of ids with boolean set algebra.
//!
//! A cell lets one writer at a time mutate a private copy of its value while
//! any number of readers keep consistent snapshots, never blocked by the
//! writer. `LinCowCell` also reclaims superseded snapshots strictly in the
//! order they were created.
pub mod bitrange;
pub mod cowcell;
pub mod generation;
pub mod idl;
pub mod lincowcell;
mod sync;

pub use bitrange::{IDLBitRange, IDLBitRangeIter};
pub use idl::{AndNot, IDLSimple, IDLSimpleIter, IDL};
