//! Elementary functions supplied by the caller.
//!
//! Logarithms, exponentials and square roots come from the machine. Functions that need one take
//! it as an argument and only ask that it be a function: equal arguments give equal results.

use vstd::prelude::*;
use crate::binary64::Real;

verus! {

/// Whether `f` can be called on every value and always gives the same result for it.
pub open spec fn is_function<F: Fn(Real) -> Real>(f: F) -> bool {
    &&& forall|x: Real| call_requires(f, (x,))
    &&& forall|x: Real, y: Real, z: Real|
        call_ensures(f, (x,), y) && call_ensures(f, (x,), z) ==> y == z
}

/// What `f` gives for `x`.
pub open spec fn value_at<F: Fn(Real) -> Real>(f: F, x: Real) -> Real {
    choose|y: Real| call_ensures(f, (x,), y)
}

/// Applies `f`.
pub fn evaluate<F: Fn(Real) -> Real>(f: F, x: Real) -> (r: Real)
    requires
        is_function(f),
    ensures
        r == value_at(f, x),
{
    let r: Real = f(x);
    assert(call_ensures(f, (x,), r));
    r
}

} // verus!
