//! Integer side of weight learning: the raw one-hot encoding of a board and
//! the linear models that the training loops update.

pub mod ntuple;
pub mod td;
