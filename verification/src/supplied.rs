//! Functions that the caller supplies: the sines, powers and exponentials that
//! are evaluated outside this crate.
use vstd::prelude::*;

verus! {

/// The function can be called on every argument, and gives one result for each.
pub open spec fn single_valued<A, R, F: Fn(A) -> R>(f: F) -> bool {
    &&& forall|x: A| #[trigger] call_requires(f, (x,))
    &&& forall|x: A, y: R, z: R|
        #[trigger] call_ensures(f, (x,), y) && #[trigger] call_ensures(f, (x,), z) ==> y == z
}

/// The result of the function for `x`.
pub open spec fn result<A, R, F: Fn(A) -> R>(f: F, x: A) -> R {
    choose|y: R| call_ensures(f, (x,), y)
}

/// Calls the function.
pub fn evaluate<A, R, F: Fn(A) -> R>(f: &F, x: A) -> (y: R)
    requires
        single_valued(*f),
    ensures
        y == result(*f, x),
        call_ensures(*f, (x,), y),
{
    let y: R = f(x);
    proof {
        let z: R = result(*f, x);
        assert(call_ensures(*f, (x,), y));
        assert(call_ensures(*f, (x,), z));
    }
    y
}

} // verus!
