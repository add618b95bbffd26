//! The bipolar activation functions: their formulas.

use vstd::prelude::*;
use vstd::string::StringExecFns;

verus! {

#[derive(Debug, Clone, Copy)]
pub enum BipolarActivationFunction {
    Identity,
    Linear,
    Gaussian,
    Sigmoid,
    Sine,
}

impl BipolarActivationFunction {
    pub open spec fn spec_formula(self) -> Seq<char> {
        match self {
            BipolarActivationFunction::Identity => "y = x"@,
            BipolarActivationFunction::Linear => "y = max(-1.0, min(1.0, x))"@,
            BipolarActivationFunction::Gaussian => "y = 2.0 * exp(-(x * 2.5)^2.0) - 1.0"@,
            BipolarActivationFunction::Sigmoid => "y = 2.0 / (1.0 + exp(-4.9 * x)) - 1.0"@,
            BipolarActivationFunction::Sine => "y = sin(2.0 * x)"@,
        }
    }

    /// Whether the function maps every argument into the range from -1 to 1.
    /// The identity does not.
    pub fn is_bounded(&self) -> (r: bool)
        ensures
            r == !(*self is Identity),
    {
        match *self {
            BipolarActivationFunction::Identity => false,
            _ => true,
        }
    }

    pub fn formula(&self) -> (r: &'static str)
        ensures
            r@ == self.spec_formula(),
    {
        match *self {
            BipolarActivationFunction::Identity => "y = x",
            BipolarActivationFunction::Linear => "y = max(-1.0, min(1.0, x))",
            BipolarActivationFunction::Gaussian => "y = 2.0 * exp(-(x * 2.5)^2.0) - 1.0",
            BipolarActivationFunction::Sigmoid => "y = 2.0 / (1.0 + exp(-4.9 * x)) - 1.0",
            BipolarActivationFunction::Sine => "y = sin(2.0 * x)",
        }
    }
}

/// The identity, clipped to the range from -1 to 1.
pub struct Linear;

impl Linear {
    pub fn formula(&self) -> (r: String)
        ensures
            r@ == BipolarActivationFunction::Linear.spec_formula(),
    {
        String::from_str("y = max(-1.0, min(1.0, x))")
    }
}

/// The sigmoid, stretched to the range from -1 to 1.
pub struct Sigmoid;

impl Sigmoid {
    pub fn formula(&self) -> (r: String)
        ensures
            r@ == BipolarActivationFunction::Sigmoid.spec_formula(),
    {
        String::from_str("y = 2.0 / (1.0 + exp(-4.9 * x)) - 1.0")
    }
}

/// The sine of twice the argument.
pub struct Sine;

impl Sine {
    pub fn formula(&self) -> (r: String)
        ensures
            r@ == BipolarActivationFunction::Sine.spec_formula(),
    {
        String::from_str("y = sin(2.0 * x)")
    }
}

/// The bell curve, stretched to the range from -1 to 1.
pub struct Gaussian;

impl Gaussian {
    pub fn formula(&self) -> (r: String)
        ensures
            r@ == BipolarActivationFunction::Gaussian.spec_formula(),
    {
        String::from_str("y = 2.0 * exp(-(x * 2.5)^2.0) - 1.0")
    }
}

} // verus!
