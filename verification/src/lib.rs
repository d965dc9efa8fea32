use vstd::prelude::*;

mod activation;
mod algebra;
mod idx_parser;
mod loss_functions;
mod matrix;
mod perceptron;

pub use activation::d_relu;
pub use activation::relu;
pub use activation::Activation;
pub use algebra::EntryOp;
pub use idx_parser::one_hot;
pub use idx_parser::parse;
pub use loss_functions::sse;
pub use loss_functions::Loss;
pub use matrix::Matrix;
pub use perceptron::FeedForwardStates;
pub use perceptron::Gradients;
pub use perceptron::Layer;
pub use perceptron::Network;

verus! {

/// The error kinds a matrix or network operation can surface.
///
/// `DimensionMismatch` is returned whenever two operand shapes cannot be
/// combined (dot product, elementwise arithmetic, buffer length against a
/// declared shape).  `InvalidState` is returned when the network engine is
/// driven out of order (a backward pass without a forward pass, a hidden
/// layer before an input layer).  `Overflow` is returned when an exact
/// integer result does not fit in the 64-bit entry type.
#[derive(Clone, Copy, Debug, PartialEq, Eq, Structural)]
pub enum NetError {
    DimensionMismatch,
    InvalidState,
    Overflow,
}

} // verus!
