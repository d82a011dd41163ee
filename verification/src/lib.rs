//! Trace reconstruction: recovering a message of bits from traces of it,
//! each the message with some of its bits deleted.
//!
//! `trace` enumerates the ways to place a trace in a message and counts the
//! embeddings of one bit sequence in another; `sat` keeps the clauses that
//! the traces leave open and narrows them trace by trace; `weighted` does
//! the same with a weight on each clause; `weights` keeps a weight for each
//! candidate message. `combinatorics`, `embedding`, `clause_laws` and
//! `soundness` hold the definitions and the laws that the contracts rest on.

pub mod bits;
pub mod clause_laws;
pub mod combinatorics;
pub mod embedding;
pub mod listing;
pub mod render;
pub mod sat;
pub mod soundness;
pub mod trace;
pub mod weighted;
pub mod weights;
