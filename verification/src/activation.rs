//! The activation functions a network can use. Their numeric behaviour
//! lives with the floating-point code outside this crate; here are the
//! kinds, their names and the default choice.

use vstd::prelude::*;

verus! {

/// The logistic function `1 / (1 + e^(-x))`, computed directly.
#[derive(Clone, Debug, Default)]
pub struct Sigmoid;

impl Sigmoid {
    /// A new `Sigmoid`.
    pub fn new() -> (r: Self)
        ensures
            r == Sigmoid,
    {
        Sigmoid
    }

    /// The display name.
    pub fn name(&self) -> (r: &'static str)
        ensures
            r@ == "Sigmoid"@,
    {
        "Sigmoid"
    }
}

/// The identity function.
#[derive(Clone, Debug, Default)]
pub struct Linear;

impl Linear {
    /// A new `Linear`.
    pub fn new() -> (r: Self)
        ensures
            r == Linear,
    {
        Linear
    }

    /// The display name.
    pub fn name(&self) -> (r: &'static str)
        ensures
            r@ == "Linear"@,
    {
        "Linear"
    }
}

/// The step function: 1 above zero, 0 otherwise.
#[derive(Clone, Debug, Default)]
pub struct Threshold;

impl Threshold {
    /// A new `Threshold`.
    pub fn new() -> (r: Self)
        ensures
            r == Threshold,
    {
        Threshold
    }

    /// The display name.
    pub fn name(&self) -> (r: &'static str)
        ensures
            r@ == "Threshold"@,
    {
        "Threshold"
    }
}

/// The predefined activation functions.
#[derive(Clone, Debug)]
pub enum Activation {
    /// The logistic function read from a precomputed table (the default).
    SigmoidCached,
    /// The logistic function computed directly.
    Sigmoid,
    /// The identity function.
    Linear,
    /// The step function.
    Threshold,
}

impl Default for Activation {
    fn default() -> (r: Self)
        ensures
            r == Activation::SigmoidCached,
    {
        Activation::SigmoidCached
    }
}

impl Activation {
    /// The display name of the activation function.
    pub fn name(&self) -> (r: &'static str)
        ensures
            match self {
                Activation::SigmoidCached => r@ == "Sigmoid (Cached)"@,
                Activation::Sigmoid => r@ == "Sigmoid"@,
                Activation::Linear => r@ == "Linear"@,
                Activation::Threshold => r@ == "Threshold"@,
            },
    {
        match self {
            Activation::SigmoidCached => "Sigmoid (Cached)",
            Activation::Sigmoid => "Sigmoid",
            Activation::Linear => "Linear",
            Activation::Threshold => "Threshold",
        }
    }
}

} // verus!
