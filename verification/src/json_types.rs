//! The body that a client posts to the answer endpoint.

use vstd::prelude::*;

verus! {

/// A posted answer: the kind of message, the challenge's identifier, and the
/// factor list that the client found.
#[derive(Debug, PartialEq, Eq, Clone)]
pub struct FactorsResponse {
    pub kind: String,
    pub id: String,
    pub factors: String,
}

} // verus!
