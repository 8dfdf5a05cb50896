//! Random bytes.
use rand::RngCore;
use vstd::prelude::*;

verus! {

/// `fill_bytes` of `rand::thread_rng` overwrites every byte with a random one,
/// and keeps the length. It panics where the system has no entropy to seed the
/// generator from, which no condition on the arguments can rule out.
#[verifier::external_body]
pub(crate) fn fill_random(bytes: &mut Vec<u8>)
    ensures
        final(bytes)@.len() == old(bytes)@.len(),
{
    rand::thread_rng().fill_bytes(bytes);
}

} // verus!
