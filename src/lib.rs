//! A general context-free grammar parser built on an Earley chart that keeps
//! every distinct derivation, so that ambiguous inputs yield one parse tree
//! per derivation.

pub mod grammar;
pub mod laws;
pub mod text;
