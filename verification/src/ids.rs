use vstd::prelude::*;

verus! {

/// Draws an identifier with `rand::random::<i64>()`.
///
/// The value comes from the thread-local random generator, so nothing is
/// promised about it: any `i64` may come back, and two calls may differ.
#[verifier::external_body]
pub(crate) fn random_id() -> (id: i64) {
    rand::random::<i64>()
}

} // verus!
