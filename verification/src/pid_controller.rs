//! The interface of a feedback controller.

use vstd::prelude::*;

verus! {

/// A controller with one input and one output over the scalar `T`.
///
/// What `update` computes is the implementor's: no law is laid on it here.
pub trait PIDController<T>: Sized {
    /// A controller at rest.
    fn new() -> Self;

    /// One control step: `r` is the target value, `y` the present value; the
    /// result is the manipulated value.
    fn update(&mut self, r: T, y: T) -> T;
}

} // verus!
