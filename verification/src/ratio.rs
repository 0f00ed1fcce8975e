//! Similarity estimates as exact fractions.

use vstd::prelude::*;

verus! {

/// A similarity estimate: `num` agreeing items out of `den`. The estimate is
/// kept as two counts so that nothing is rounded before the caller divides.
#[derive(Clone, Copy, Debug, PartialEq, Eq, Structural)]
pub struct Ratio {
    pub num: usize,
    pub den: usize,
}

} // verus!
