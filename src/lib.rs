//! Branching-bisimulation equivalence classes of a finite labelled transition
//! system, computed by signature-based partition refinement.
//!
//! States are numbered `0..n`. A partition maps each state to a block id.
//! Each round computes every state's signature (what it can observe after
//! silent steps inside its own block), splits the blocks whose members
//! disagree, and the driver repeats rounds until no block needs splitting.

pub mod lts;
pub mod signature;
pub mod refine;
