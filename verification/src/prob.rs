//! Arithmetic on uncertain values. The operations work on floating-point
//! distributions and live outside the verified library; this module names
//! the type that carries them.

use vstd::prelude::*;

verus! {

/// Arithmetic on probabilistic values with error propagation.
#[derive(Debug, Clone, Copy)]
pub struct ProbArithmetic;

} // verus!
