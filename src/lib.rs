//! Synthesis of lookup-table networks into a flat AND/OR/NOT netlist.
//!
//! Each lookup table is turned into a sum-of-products circuit with its own
//! local wire numbering; the circuits are then merged into one circuit whose
//! wire ids are unique across the whole network.

pub mod circuit;
pub mod text;
pub mod lut;
pub mod sop_sim;
pub mod deps;
pub mod unify;
pub mod equivalence;
pub mod netlist;
