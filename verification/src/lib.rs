//! A minimal runtime for interaction nets: binary agents tagged with a
//! numeric label, connected by wires, rewritten by local annihilation and
//! commutation rules until no pending pair is left, together with a checker
//! for the global coherence of a net's duplication structure.

pub mod coherence;
pub mod enumerate;
pub mod lambda;
pub mod parser;
pub mod run;
pub mod store;
pub mod tree;
