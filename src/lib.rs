//! Revset evaluation over a commit-graph index.
//!
//! A revset is a set of commits given by a set-algebra expression. Every
//! set is held as a list of index positions in strictly descending order;
//! set operators merge such lists, and each set can also serve as a
//! membership test driven by descending queries. Alongside sits a sorted
//! index from identifiers to values, looked up by hex prefix.
pub mod dag;
pub mod evaluate;
pub mod generation;
pub mod hex;
pub mod id_index;
pub mod index;
pub mod latest;
pub mod laws;
pub mod merge;
pub mod revset;
