//! The ways in which the modular routines and the curve transform fail.
use vstd::prelude::*;

verus! {

/// Why a modular routine produced no result.
#[derive(Debug, Clone, Copy, PartialEq, Eq, Structural)]
pub enum ModError {
    /// The value and the modulus share a factor, so no inverse exists.
    NoInverseExists,
    /// Euler's criterion shows that the value has no square root.
    NotAResidue,
    /// The Tonelli–Shanks search ran out of steps; this happens only when
    /// the modulus is not an odd prime.
    DefensiveLoopExhaustion,
}

/// Why a curve could not be brought to Montgomery form.
#[derive(Debug, Clone, Copy, PartialEq, Eq, Structural)]
pub enum TransformError {
    /// No root of the curve's cubic was met within the allowed draws.
    RootNotFound,
    /// The square root or the inverse of the scale factor failed.
    TransformFailed(ModError),
}

} // verus!
