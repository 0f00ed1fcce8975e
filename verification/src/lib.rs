//! Similarity sketches of genomic interval coverage.
//!
//! Covered positions are hashed with one fixed universal hash and condensed
//! into a bottom-k sketch or into a one-permutation sketch. Sketches are
//! compared by their Jaccard estimators, and a banded index finds the stored
//! sketches that agree with a query in at least one band.
//!
//! - `hash`: the universal hash.
//! - `bed`: chromosomes and their layout, queries, and the flattening of
//!   intervals into covered positions.
//! - `bottom_k`: the priority queue of hashed positions and its estimator.
//! - `oph`: one-permutation sketches, their densification and estimator.
//! - `lsh`: the banded index.
//! - `ratio`: estimates as exact fractions.

pub mod bed;
pub mod bottom_k;
pub mod hash;
pub mod lsh;
pub mod oph;
pub mod ratio;
