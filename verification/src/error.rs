use vstd::prelude::*;

verus! {

/// Errors of the matrix and autodiff layer. Shape and broadcast failures
/// mirror the forward-pass validation rules; the arithmetic variants report
/// that an exact rational result has no 64-bit representation or that an
/// elementwise division met a zero divisor.
#[derive(Debug)]
pub enum MatrixError {
    ShapeMismatchError { a_shape: (usize, usize), b_shape: (usize, usize), op: String },
    BroadCastError { got_shape: (usize, usize), expected_shape: (usize, usize) },
    OverflowError,
    DivisionByZeroError,
}

impl MatrixError {
    /// Short description of the error kind, in place of a `Display` impl.
    pub fn message(&self) -> (r: &'static str)
        ensures
            match self {
                MatrixError::ShapeMismatchError { .. } => r@ =~= "shape mismatch between operands"@,
                MatrixError::BroadCastError { .. } => r@ =~= "could not broadcast into requested shape"@,
                MatrixError::OverflowError => r@ =~= "exact result does not fit a 64-bit rational"@,
                MatrixError::DivisionByZeroError => r@ =~= "elementwise division by zero"@,
            },
    {
        match self {
            MatrixError::ShapeMismatchError { .. } => "shape mismatch between operands",
            MatrixError::BroadCastError { .. } => "could not broadcast into requested shape",
            MatrixError::OverflowError => "exact result does not fit a 64-bit rational",
            MatrixError::DivisionByZeroError => "elementwise division by zero",
        }
    }
}

/// Errors of the training layer built on the core.
#[derive(Debug)]
pub enum NNError {
    TrainDataMismatch { x_size: usize, y_size: usize },
    BatchSizeExceedsTrainingSet { batch_size: usize, train_size: usize },
}

impl NNError {
    pub fn message(&self) -> (r: &'static str)
        ensures
            match self {
                NNError::TrainDataMismatch { .. } => r@ =~= "sizes of inputs and labels differ"@,
                NNError::BatchSizeExceedsTrainingSet { .. } => r@ =~= "batch size exceeds the training set"@,
            },
    {
        match self {
            NNError::TrainDataMismatch { .. } => "sizes of inputs and labels differ",
            NNError::BatchSizeExceedsTrainingSet { .. } => "batch size exceeds the training set",
        }
    }
}

/// A training-loop failure: either a data-validation error or an arithmetic
/// failure of the underlying matrix core.
#[derive(Debug)]
pub enum TrainError {
    Data(NNError),
    Compute(MatrixError),
}

/// Errors of the data-loading utilities.
#[derive(Debug)]
pub enum UtilityError {
    LabelIndexOutOfBound { y_index: usize, csv_column_len: usize },
    MalformedCsv,
}

impl UtilityError {
    pub fn message(&self) -> (r: &'static str)
        ensures
            match self {
                UtilityError::LabelIndexOutOfBound { .. } => r@ =~= "label index is out of bounds for the table"@,
                UtilityError::MalformedCsv => r@ =~= "the table bytes are not well-formed data"@,
            },
    {
        match self {
            UtilityError::LabelIndexOutOfBound { .. } => "label index is out of bounds for the table",
            UtilityError::MalformedCsv => "the table bytes are not well-formed data",
        }
    }
}

} // verus!
