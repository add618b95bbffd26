//! The family of geometric activation functions carried by CPPN nodes:
//! their names and their plotting formulas.

use vstd::prelude::*;
use vstd::string::StringExecFns;

verus! {

/// What every activation function offers besides its numeric evaluation:
/// a stable name, and a gnuplot formula over a caller-supplied expression.
pub trait ActivationFunction: Clone + std::fmt::Debug + Send + Sized + PartialEq + Eq {
    /// The formula in which the expression `x` stands for the argument.
    spec fn spec_formula(&self, x: Seq<char>) -> Seq<char>;

    /// The name of the function.
    spec fn spec_name(&self) -> Seq<char>;

    fn formula_gnuplot(&self, x: String) -> (r: String)
        ensures
            r@ == self.spec_formula(x@),
    ;

    fn name(&self) -> (r: String)
        ensures
            r@ == self.spec_name(),
    ;
}

#[derive(Debug, Clone, Copy, PartialEq, Eq, Structural)]
pub enum GeometricActivationFunction {
    Linear,
    LinearBipolarClipped,
    Absolute,
    Gaussian,
    BipolarGaussian,
    BipolarSigmoid,
    Sine,
    Cosine,
    Constant1,
}

impl GeometricActivationFunction {
    /// Whether the values of the function lie between -1 and 1.
    pub open spec fn spec_is_bipolar(self) -> bool {
        match self {
            GeometricActivationFunction::LinearBipolarClipped
            | GeometricActivationFunction::BipolarGaussian
            | GeometricActivationFunction::BipolarSigmoid
            | GeometricActivationFunction::Sine
            | GeometricActivationFunction::Cosine => true,
            _ => false,
        }
    }

    #[verifier::when_used_as_spec(spec_is_bipolar)]
    pub fn is_bipolar(self) -> (r: bool)
        ensures
            r == self.spec_is_bipolar(),
    {
        match self {
            GeometricActivationFunction::LinearBipolarClipped
            | GeometricActivationFunction::BipolarGaussian
            | GeometricActivationFunction::BipolarSigmoid
            | GeometricActivationFunction::Sine
            | GeometricActivationFunction::Cosine => true,
            _ => false,
        }
    }
}

/// `x` between `prefix` and `suffix`.
fn enclose(prefix: &str, x: String, suffix: &str) -> (r: String)
    ensures
        r@ == prefix@ + x@ + suffix@,
{
    let mut formula = String::from_str(prefix);
    formula.append(x.as_str());
    formula.append(suffix);
    formula
}

impl ActivationFunction for GeometricActivationFunction {
    open spec fn spec_formula(&self, x: Seq<char>) -> Seq<char> {
        match *self {
            GeometricActivationFunction::Linear => x,
            GeometricActivationFunction::LinearBipolarClipped => "max(-1.0, min(1.0, "@ + x + "))"@,
            GeometricActivationFunction::Absolute => "abs("@ + x + ")"@,
            GeometricActivationFunction::Gaussian => "(exp(-((("@ + x + ") * 2.5)**2.0))"@,
            GeometricActivationFunction::BipolarGaussian => "2.0 * exp(-((("@ + x
                + ") * 2.5)**2.0)) - 1.0"@,
            GeometricActivationFunction::BipolarSigmoid => "2.0 / (1.0 + exp(-4.9 * ("@ + x
                + "))) - 1.0"@,
            GeometricActivationFunction::Sine => "sin("@ + x + ")"@,
            GeometricActivationFunction::Cosine => "cos("@ + x + ")"@,
            GeometricActivationFunction::Constant1 => "1.0"@,
        }
    }

    open spec fn spec_name(&self) -> Seq<char> {
        match *self {
            GeometricActivationFunction::Linear => "Linear"@,
            GeometricActivationFunction::LinearBipolarClipped => "LinearBipolarClipped"@,
            GeometricActivationFunction::Absolute => "Absolute"@,
            GeometricActivationFunction::Gaussian => "Gaussian"@,
            GeometricActivationFunction::BipolarGaussian => "BipolarGaussian"@,
            GeometricActivationFunction::BipolarSigmoid => "BipolarSigmoid"@,
            GeometricActivationFunction::Sine => "Sine"@,
            GeometricActivationFunction::Cosine => "Consine"@,
            GeometricActivationFunction::Constant1 => "1.0"@,
        }
    }

    fn formula_gnuplot(&self, x: String) -> (r: String) {
        match *self {
            GeometricActivationFunction::Linear => x,
            GeometricActivationFunction::LinearBipolarClipped => enclose("max(-1.0, min(1.0, ", x, "))"),
            GeometricActivationFunction::Absolute => enclose("abs(", x, ")"),
            GeometricActivationFunction::Gaussian => enclose("(exp(-(((", x, ") * 2.5)**2.0))"),
            GeometricActivationFunction::BipolarGaussian => enclose(
                "2.0 * exp(-(((",
                x,
                ") * 2.5)**2.0)) - 1.0",
            ),
            GeometricActivationFunction::BipolarSigmoid => enclose(
                "2.0 / (1.0 + exp(-4.9 * (",
                x,
                "))) - 1.0",
            ),
            GeometricActivationFunction::Sine => enclose("sin(", x, ")"),
            GeometricActivationFunction::Cosine => enclose("cos(", x, ")"),
            GeometricActivationFunction::Constant1 => String::from_str("1.0"),
        }
    }

    fn name(&self) -> (r: String) {
        match *self {
            GeometricActivationFunction::Linear => String::from_str("Linear"),
            GeometricActivationFunction::LinearBipolarClipped => String::from_str("LinearBipolarClipped"),
            GeometricActivationFunction::Absolute => String::from_str("Absolute"),
            GeometricActivationFunction::Gaussian => String::from_str("Gaussian"),
            GeometricActivationFunction::BipolarGaussian => String::from_str("BipolarGaussian"),
            GeometricActivationFunction::BipolarSigmoid => String::from_str("BipolarSigmoid"),
            GeometricActivationFunction::Sine => String::from_str("Sine"),
            GeometricActivationFunction::Cosine => String::from_str("Consine"),
            GeometricActivationFunction::Constant1 => String::from_str("1.0"),
        }
    }
}

} // verus!
