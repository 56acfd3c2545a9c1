//! The triangle of a four-joint arm: two segments and the twist of their
//! plane about the line from shoulder to wrist.

use vstd::prelude::*;

verus! {

/// The lengths `a` and `b` of the two segments and the reference angle
/// `ref_theta` of the elbow about the line to the target.
pub struct IK4dTriangle<T> {
    pub a: T,
    pub b: T,
    pub ref_theta: T,
}

impl<T: Default> IK4dTriangle<T> {
    /// A triangle whose lengths and reference angle are the scalar's
    /// default, which is zero for the number types.
    pub fn new() -> (r: Self)
        ensures
            call_ensures(T::default, (), r.a),
            call_ensures(T::default, (), r.b),
            call_ensures(T::default, (), r.ref_theta),
    {
        Self { a: T::default(), b: T::default(), ref_theta: T::default() }
    }
}

} // verus!
