//! The linear models learnt by TD(0) on afterstates: one over the board
//! features, one over the raw one-hot encoding.

use vstd::prelude::*;
use crate::features::Feature;
use crate::train::ntuple::DIM;

verus! {

/// Linear model over the enabled features, one weight each.
pub struct FeatureModel {
    pub enabled: Vec<Feature>,
}

impl FeatureModel {
    /// Number of weights: one per enabled feature.
    pub fn dim(&self) -> (n: usize)
        ensures
            n == self.enabled.len(),
    {
        self.enabled.len()
    }
}

/// Linear model over the one-hot encoding of the cells.
pub struct NTupleModel;

impl NTupleModel {
    /// Number of weights: one per cell and exponent.
    pub fn dim(&self) -> (n: usize)
        ensures
            n == DIM,
    {
        DIM
    }
}

} // verus!
