//! Pairing of optional values.

use vstd::prelude::*;

verus! {

/// The pair of both contents, when both are present.
pub open spec fn both_spec<A, B>(a: Option<A>, b: Option<B>) -> Option<(A, B)> {
    match (a, b) {
        (Some(x), Some(y)) => Some((x, y)),
        _ => None,
    }
}

/// Combines two optional values into an optional pair. The result is
/// present exactly when both arguments are.
pub fn both<A, B>(a: Option<A>, b: Option<B>) -> (r: Option<(A, B)>)
    ensures
        r == both_spec(a, b),
{
    match a {
        Some(x) => match b {
            Some(y) => Some((x, y)),
            None => None,
        },
        None => None,
    }
}

} // verus!
