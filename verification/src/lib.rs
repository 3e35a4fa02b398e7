//! Synthesis of word-level bitwise circuits by stochastic local search.
//!
//! A circuit is a tree of bitwise and shift gates over 32-bit words. The
//! solver evaluates a candidate circuit on a set of examples, propagates a
//! discrete sensitivity signal backward through the tree, scores every local
//! edit of a single gate, samples one edit from a temperature-scaled softmax
//! distribution, and repeats until the circuit reproduces the target outputs
//! or a budget runs out.

pub mod binary;
pub mod bits;
pub mod clock;
pub mod formula;
pub mod grad;
pub mod rng;
pub mod solving;
pub mod unary;
