//! Function values seen as relations.
//!
//! The contracts of this crate are stated over relations of type `spec_fn`.
//! For a function value, the relation holds of arguments and a result when the
//! function's postcondition allows that result for those arguments. A function
//! that can answer one call in several ways, as a random sampler does, relates
//! its arguments to each of them.

use vstd::prelude::*;

verus! {

/// The results that a function of one argument may give for it.
pub open spec fn outputs1<A, B, F: Fn(A) -> B>(f: F) -> spec_fn(A, B) -> bool {
    |a: A, b: B| call_ensures(f, (a,), b)
}

/// The results that a function of two arguments may give for them.
pub open spec fn outputs2<A, B, C, F: Fn(A, B) -> C>(f: F) -> spec_fn(A, B, C) -> bool {
    |a: A, b: B, c: C| call_ensures(f, (a, b), c)
}

/// Whether a function of one argument may be called on every value.
pub open spec fn total1<A, B, F: Fn(A) -> B>(f: F) -> bool {
    forall|a: A| call_requires(f, (a,))
}

/// Whether a function of two arguments may be called on every pair of values.
pub open spec fn total2<A, B, C, F: Fn(A, B) -> C>(f: F) -> bool {
    forall|a: A, b: B| call_requires(f, (a, b))
}

} // verus!
