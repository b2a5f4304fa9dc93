//! Random identifiers for ICMP probes.

use vstd::prelude::*;

verus! {

/// Calls `rand::random::<u16>()`, which draws a uniformly distributed `u16` from the thread's
/// generator. Nothing is claimed of the number: every `u16` may come back.
#[verifier::external_body]
pub(crate) fn random_identifier() -> u16 {
    rand::random::<u16>()
}

} // verus!
