//! Keyed-sequence reconciliation: computing the edit script between two
//! generations of identity keys and applying it to an array of child slots.

pub mod apply;
pub mod detect;
pub mod diff;
pub mod fold_facts;
pub mod key_set;
pub mod laws;
pub mod selection;
