//! Floating-point execution policies of SPIR-V entry points, carried through a
//! linker pipeline: saved out of a module, re-emitted for the float widths each
//! entry point reaches, and pruned of capabilities that no longer apply.

pub mod codes;
pub mod graph;
pub mod listing;
pub mod model;
pub mod policies;
pub mod prune;
pub mod reach;
pub mod restore;
pub mod round_trip;
