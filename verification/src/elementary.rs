//! Elementary functions, supplied by the caller.
//!
//! The platform's `ln`, `exp`, `pow`, `log10` and `sqrt` enter this library as
//! one function argument that answers requests. Whatever a function here
//! computes with it is stated over what that argument answers.
use crate::binary64::Binary64;
use vstd::prelude::*;

verus! {

/// A request for the value of an elementary function.
#[derive(Clone, Copy, Debug, PartialEq, Eq, Structural)]
pub enum Elementary {
    /// The first number raised to the second.
    Pow(Binary64, Binary64),
    /// Natural logarithm.
    Ln(Binary64),
    /// Natural exponential.
    Exp(Binary64),
    /// Decimal logarithm.
    Log10(Binary64),
    /// Square root.
    Sqrt(Binary64),
}

/// `math` answers every request, and the same request always alike.
pub open spec fn is_function<M: Fn(Elementary) -> Binary64>(math: M) -> bool {
    &&& forall|q: Elementary| #[trigger] call_requires(math, (q,))
    &&& forall|q: Elementary, x: Binary64, y: Binary64|
        call_ensures(math, (q,), x) && call_ensures(math, (q,), y) ==> x == y
}

/// What `math` answers.
pub open spec fn answers<M: Fn(Elementary) -> Binary64>(math: M) -> spec_fn(Elementary) -> Binary64 {
    |q: Elementary| choose|y: Binary64| call_ensures(math, (q,), y)
}

/// Puts one request.
pub fn ask<M: Fn(Elementary) -> Binary64>(math: &M, request: Elementary) -> (r: Binary64)
    requires
        is_function(*math),
    ensures
        r == answers(*math)(request),
{
    math(request)
}

} // verus!
