pub mod autodiff;
pub mod dataframe;
pub mod error;
pub mod matrix;
pub mod neural_network;
pub mod scalar;

pub use autodiff::{BinaryOpType, BinaryScalarOpType, GradMap, Operator, UnaryOpType};
pub use dataframe::{DFType, DataFrame, EncodingScheme};
pub use error::{MatrixError, NNError, TrainError, UtilityError};
pub use matrix::{Graph, Matrix, Node};
pub use neural_network::{Activation, Layer, NN};
pub use scalar::{Rat, Scalar};
