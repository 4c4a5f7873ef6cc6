//! Errors of the neural network library.

use vstd::prelude::*;
use crate::decimal::{decimal_chars, push_decimal};

verus! {

/// What went wrong in a network operation.
#[derive(Debug)]
pub enum NeuralNetworkError {
    /// A construction parameter is out of range.
    InvalidParameter {
        /// Name of the parameter.
        param: &'static str,
        /// Why it was refused.
        reason: String,
    },
    /// The input slice does not have one value per input neuron.
    InputLengthMismatch { expected: usize, actual: usize },
    /// The desired-output slice does not have one value per output neuron.
    OutputLengthMismatch { expected: usize, actual: usize },
    /// Reading or writing failed.
    Io(std::io::Error),
    /// Saved network text could not be understood.
    Parse(String),
    /// A numeric computation went wrong.
    Computation(String),
}

/// The result of a network operation.
pub type Result<T> = std::result::Result<T, NeuralNetworkError>;

/// `std::io::Error`, which the `Io` variant carries; nothing inside it is
/// read here.
#[verifier::external_type_specification]
#[verifier::external_body]
pub struct ExIoError(std::io::Error);

impl From<std::io::Error> for NeuralNetworkError {
    fn from(err: std::io::Error) -> (r: Self)
        ensures
            r == NeuralNetworkError::Io(err),
    {
        NeuralNetworkError::Io(err)
    }
}

impl vstd::std_specs::convert::FromSpecImpl<std::io::Error> for NeuralNetworkError {
    open spec fn obeys_from_spec() -> bool {
        true
    }

    open spec fn from_spec(v: std::io::Error) -> Self {
        NeuralNetworkError::Io(v)
    }
}

impl NeuralNetworkError {
    /// An `InvalidParameter` error for `param`.
    pub fn invalid_param(param: &'static str, reason: impl Into<String>) -> (r: Self)
        ensures
            r matches NeuralNetworkError::InvalidParameter { param: p, reason: s }
                && p == param && call_ensures(<_ as Into<String>>::into, (reason,), s),
    {
        NeuralNetworkError::InvalidParameter { param, reason: reason.into() }
    }

    /// An `InputLengthMismatch` error.
    pub fn input_mismatch(expected: usize, actual: usize) -> (r: Self)
        ensures
            r == (NeuralNetworkError::InputLengthMismatch { expected, actual }),
    {
        NeuralNetworkError::InputLengthMismatch { expected, actual }
    }

    /// An `OutputLengthMismatch` error.
    pub fn output_mismatch(expected: usize, actual: usize) -> (r: Self)
        ensures
            r == (NeuralNetworkError::OutputLengthMismatch { expected, actual }),
    {
        NeuralNetworkError::OutputLengthMismatch { expected, actual }
    }

    /// A `Computation` error.
    pub fn computation(msg: impl Into<String>) -> (r: Self)
        ensures
            r matches NeuralNetworkError::Computation(s) && call_ensures(
                <_ as Into<String>>::into,
                (msg,),
                s,
            ),
    {
        NeuralNetworkError::Computation(msg.into())
    }

    /// The human-readable description of the error.
    pub fn to_string(&self) -> (s: String)
        ensures
            match self {
                NeuralNetworkError::InvalidParameter { param, reason } => s@ == "Invalid parameter '"@
                    + param@ + "': "@ + reason@,
                NeuralNetworkError::InputLengthMismatch { expected, actual } => s@
                    == "Input length mismatch: expected "@ + decimal_chars(*expected as nat)
                    + ", got "@ + decimal_chars(*actual as nat),
                NeuralNetworkError::OutputLengthMismatch { expected, actual } => s@
                    == "Output length mismatch: expected "@ + decimal_chars(*expected as nat)
                    + ", got "@ + decimal_chars(*actual as nat),
                NeuralNetworkError::Io(_) => s@.len() >= "I/O error: "@.len() && s@.subrange(
                    0,
                    "I/O error: "@.len() as int,
                ) == "I/O error: "@,
                NeuralNetworkError::Parse(msg) => s@ == "Parse error: "@ + msg@,
                NeuralNetworkError::Computation(msg) => s@ == "Computation error: "@ + msg@,
            },
    {
        match self {
            NeuralNetworkError::InvalidParameter { param, reason } => {
                let mut s = String::from_str("Invalid parameter '");
                s.append(param);
                s.append("': ");
                s.append(reason.as_str());
                s
            },
            NeuralNetworkError::InputLengthMismatch { expected, actual } => {
                let mut s = String::from_str("Input length mismatch: expected ");
                push_decimal(&mut s, *expected);
                s.append(", got ");
                push_decimal(&mut s, *actual);
                s
            },
            NeuralNetworkError::OutputLengthMismatch { expected, actual } => {
                let mut s = String::from_str("Output length mismatch: expected ");
                push_decimal(&mut s, *expected);
                s.append(", got ");
                push_decimal(&mut s, *actual);
                s
            },
            NeuralNetworkError::Io(err) => {
                let mut s = String::from_str("I/O error: ");
                let detail = io_error_text(err);
                let ghost head = s@;
                s.append(detail.as_str());
                proof {
                    assert(s@.subrange(0, head.len() as int) =~= head);
                }
                s
            },
            NeuralNetworkError::Parse(msg) => {
                let mut s = String::from_str("Parse error: ");
                s.append(msg.as_str());
                s
            },
            NeuralNetworkError::Computation(msg) => {
                let mut s = String::from_str("Computation error: ");
                s.append(msg.as_str());
                s
            },
        }
    }
}

/// The text that `std::io::Error`'s `Display` prints. It depends on the
/// operating system's error descriptions, so nothing is promised of it.
#[verifier::external_body]
fn io_error_text(err: &std::io::Error) -> String {
    err.to_string()
}

} // verus!
