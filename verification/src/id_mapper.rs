//! Deterministic mapping from client string ids to vector ids.
//!
//! The same input string always gives the same id on every node: the
//! mapping is SipHash-2-4 under two fixed keys.

use crate::text::{hex, hex_value, is_hex_digit, lemma_hex16_round_trip, push_padded_digits, zero_pad};
use crate::types::VectorId;
use vstd::prelude::*;

verus! {

/// First SipHash key, fixed for determinism across all nodes.
pub const SIP_KEY_0: u64 = 0x0706050403020100u64;

/// Second SipHash key, fixed for determinism across all nodes.
pub const SIP_KEY_1: u64 = 0x0f0e0d0c0b0a0908u64;

/// What `siphasher::sip::SipHasher24` keyed with `(k0, k1)` finishes with
/// after hashing the string `s`.
pub uninterp spec fn sip24_str_of(k0: u64, k1: u64, s: Seq<char>) -> u64;

/// Calls `SipHasher24::new_with_keys(k0, k1)`, `str::hash` into it and
/// `Hasher::finish`. The hasher's state starts from the two keys alone, so
/// the result is a function of the keys and the string; the contract names
/// it and claims nothing more.
#[verifier::external_body]
fn sip24_str(k0: u64, k1: u64, s: &str) -> (r: u64)
    ensures
        r == sip24_str_of(k0, k1, s@),
{
    let mut hasher = siphasher::sip::SipHasher24::new_with_keys(k0, k1);
    std::hash::Hash::hash(s, &mut hasher);
    std::hash::Hasher::finish(&hasher)
}

/// The vector id of a client-provided string id: its SipHash-2-4 under the
/// fixed keys.
pub fn to_vector_id(client_id: &str) -> (r: VectorId)
    ensures
        r.0 == sip24_str_of(SIP_KEY_0, SIP_KEY_1, client_id@),
{
    VectorId(sip24_str(SIP_KEY_0, SIP_KEY_1, client_id))
}

/// The id as 16 lower-case hex digits, zero-padded (for logging; the
/// client's string cannot be recovered from it).
pub fn to_hex_string(id: VectorId) -> (r: String)
    ensures
        r@ == zero_pad(hex(id.0 as nat), 16),
        r@.len() == 16,
        forall|i: int| 0 <= i < 16 ==> is_hex_digit(#[trigger] r@[i]),
        hex_value(r@) == id.0,
{
    let mut s = String::new();
    push_padded_digits(&mut s, id.0, 16, 16);
    assert(s@ =~= zero_pad(hex(id.0 as nat), 16));
    proof {
        lemma_hex16_round_trip(id.0);
    }
    s
}

} // verus!
