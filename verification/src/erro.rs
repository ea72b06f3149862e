//! The ways in which a classification can fail.

use vstd::prelude::*;

verus! {

/// Why a distance or a classification could not be computed.
#[derive(Clone, Copy, Debug, PartialEq, Eq, Structural)]
pub enum KnnError {
    /// Two points that were to be compared have feature vectors of different
    /// lengths.
    DimensionMismatch,
    /// There is no training point to vote.
    EmptyTrainingSet,
    /// The number of neighbours asked for is zero.
    InvalidK,
}

impl KnnError {
    /// A short text for the error, for a caller to show.
    pub fn mensagem(&self) -> (texto: String)
        ensures
            texto@ == match *self {
                KnnError::DimensionMismatch => "feature vectors differ in length"@,
                KnnError::EmptyTrainingSet => "the training set is empty"@,
                KnnError::InvalidK => "the number of neighbours must be at least one"@,
            },
    {
        match self {
            KnnError::DimensionMismatch => "feature vectors differ in length".to_owned(),
            KnnError::EmptyTrainingSet => "the training set is empty".to_owned(),
            KnnError::InvalidK => "the number of neighbours must be at least one".to_owned(),
        }
    }
}

} // verus!
