//! Sequence number arithmetic.
use vstd::prelude::*;

verus! {

/// Half of the sequence space: how far ahead a number may be and still count as ahead.
pub const HALF_SPACE: u32 = 0x8000_0000;

/// The low 32 bits of a length, which is how far it moves a sequence number.
pub open spec fn low32(n: nat) -> u32 {
    (n % 0x1_0000_0000) as u32
}

/// The low 32 bits of a length.
pub fn length32(n: usize) -> (r: u32)
    ensures
        r == low32(n as nat),
{
    (n as u64 % 0x1_0000_0000) as u32
}

/// Whether `ack` lies ahead of `highest`: further on, by less than half the sequence space.
pub open spec fn ahead(ack: u32, highest: u32) -> bool {
    ack != highest && ack.wrapping_sub(highest) < HALF_SPACE
}

/// Whether `ack` covers every number below `end`.
pub open spec fn covers(ack: u32, end: u32) -> bool {
    ack.wrapping_sub(end) < HALF_SPACE
}

/// Of two different numbers that are not exactly half the sequence space apart, one is ahead
/// of the other and the other is not ahead of it.
pub proof fn ahead_is_asymmetric(a: u32, b: u32)
    requires
        a != b,
        a.wrapping_sub(b) != HALF_SPACE,
    ensures
        ahead(a, b) <==> !ahead(b, a),
{
}

/// Moving a number on by two lengths is moving it on by their sum.
pub proof fn lengths_add_up(seq: u32, a: nat, b: nat)
    ensures
        seq.wrapping_add(low32(a)).wrapping_add(low32(b)) == seq.wrapping_add(low32(a + b)),
{
    assert(low32(a + b) == (low32(a) + low32(b)) % 0x1_0000_0000);
}

} // verus!
