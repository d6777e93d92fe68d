//! Random numbers.
use vstd::prelude::*;

verus! {

/// `rand::random` for a 32-bit number. Any number may come back.
#[verifier::external_body]
pub(crate) fn random_u32() -> (r: u32) {
    rand::random::<u32>()
}

/// `rand::random` for a 16-bit number. Any number may come back.
#[verifier::external_body]
pub(crate) fn random_u16() -> (r: u16) {
    rand::random::<u16>()
}

} // verus!
