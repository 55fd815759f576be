//! Induction of a decision-tree classifier over a small labeled tabular
//! dataset, together with two textual renderings of the resulting tree.
//!
//! The builder recursively partitions an object subset by the candidate
//! attribute of greatest information gain, producing a tree of nodes with
//! globally unique, strictly pre-order identities.  The gain calculator works
//! in fixed-point arithmetic: entropies and information gains are integers
//! counting ten-thousandths of a bit, so the whole computation is exact,
//! deterministic and verified.

pub mod gain;
pub mod id3;
pub mod node;
pub mod object;
pub mod parser;
pub mod text;
