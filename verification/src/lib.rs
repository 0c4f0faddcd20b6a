//! Incremental transformation of sequences through compact,
//! position-indexed edit deltas.
//!
//! Given two sequences, [`diff`](crate::diff) computes a delta; applied to
//! the first sequence, the delta yields the second.  The same delta format
//! drives incremental maintenance of derived structures, such as the
//! tokenisation kept by [`lex`](crate::lex).

/// Tools for creating and working with diffs (a.k.a. deltas)
/// between sequences.
pub mod diff;
/// Incremental tokenisation of a sequence.
pub mod lex;
/// Linearisations: items associated with disjoint regions of a sequence.
pub mod linear;
/// Half-open regions of a sequence, with their partial order.
pub mod region;
/// A generic notion of a sequence, with a verified splice operation.
pub mod seq;
/// Rewrite-list deltas over vectors.
pub mod vec;
