//! Layout, validation and text-format logic of a minimal feed-forward
//! neural network.

pub mod activation;
pub mod decimal;
pub mod error;
pub mod persist;
pub mod tokens;
pub mod topology;

pub use activation::{Activation, Linear, Sigmoid, Threshold};
pub use error::NeuralNetworkError;
pub use topology::NetworkShape;
