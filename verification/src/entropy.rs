//! The system's random source.

use vstd::prelude::*;

verus! {

/// Asks `getrandom::fill` to fill a fresh buffer of `n` bytes. On success
/// the buffer comes back, still `n` bytes long; nothing is known of what
/// the bytes are. `None` stands for the failure that the source reports.
#[verifier::external_body]
pub(crate) fn random_bytes(n: usize) -> (r: Option<Vec<u8>>)
    ensures
        r matches Some(v) ==> v@.len() == n,
{
    let mut buf = vec![0u8; n];
    match getrandom::fill(&mut buf) {
        Ok(()) => Some(buf),
        Err(_) => None,
    }
}

} // verus!
