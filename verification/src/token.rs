//! Fresh identifiers.  A page's stable id is assigned once at creation;
//! collision resistance rests entirely on the entropy of the generator,
//! a documented residual risk of the design.

use vstd::prelude::*;
use crate::digest::{to_hex, lemma_hex_of_props};
use crate::strutil::no_char;

verus! {

/// Relies on rand's `random`: 32 bytes drawn from the thread-local
/// cryptographically secure generator.  Nothing is promised of the
/// values; only the count is fixed by the requested array type.
#[verifier::external_body]
fn random_bytes() -> (r: Vec<u8>)
    ensures
        r@.len() == 32,
{
    let a: [u8; 32] = rand::random();
    a.to_vec()
}

/// A fresh opaque identifier: compact hex of 32 random bytes.
pub fn stamp() -> (r: String)
    ensures
        r@.len() >= 32,
        no_char(r@, '\n'),
{
    let b = random_bytes();
    proof {
        lemma_hex_of_props(b@);
    }
    to_hex(&b)
}

} // verus!
