//! The few places where the core leans on code it does not verify:
//! checksumming, id generation, randomness, the clock, and UTF-8 decoding.

use vstd::prelude::*;

verus! {

/// The CRC-32 value of a byte sequence, as computed by the `crc32fast`
/// crate (the IEEE polynomial).  The result is a function of the bytes
/// alone; nothing else is assumed about it.
pub uninterp spec fn crc32_of(bytes: Seq<u8>) -> u32;

/// Relies on `crc32fast::hash`: the CRC-32 (IEEE) of exactly the given
/// bytes, deterministic across processes and machines.
#[verifier::external_body]
pub(crate) fn crc32(data: &[u8]) -> (r: u32)
    ensures
        r == crc32_of(data@),
{
    crc32fast::hash(data)
}

/// Relies on `uuid::Uuid::new_v4` and its hyphenated rendering: a random
/// version-4 UUID formatted as 36 characters, each a hyphen or a
/// lowercase hex digit (the 8-4-4-4-12 form).  The value is random, so
/// nothing but its shape is stated.
#[verifier::external_body]
pub(crate) fn fresh_document_id() -> (r: String)
    ensures
        crate::serializer::uuid_shape(r@),
{
    uuid::Uuid::new_v4().to_string()
}

pub assume_specification<T>[ rand::random::<T> ]() -> (r: T)
    where
        rand::distributions::Standard: rand::distributions::Distribution<T>,
;

/// A fresh random 64-bit value, drawn through `rand::random`; nothing
/// is assumed of it.
pub(crate) fn random_seed() -> u64 {
    rand::random::<u64>()
}

/// Relies on `chrono::Utc::now` and `timestamp`: seconds since the Unix
/// epoch.  The value depends on the clock, so nothing is stated of it.
#[verifier::external_body]
pub(crate) fn now_unix_seconds() -> i64 {
    chrono::Utc::now().timestamp()
}

/// Relies on `String::from_utf8` of std: succeeds exactly on valid UTF-8
/// input and preserves the bytes of the string it returns.
#[verifier::external_body]
pub(crate) fn string_from_utf8(v: Vec<u8>) -> (r: Option<String>)
    ensures
        r is Some <==> vstd::utf8::valid_utf8(v@),
        r matches Some(s) ==> vstd::utf8::encode_utf8(s@) == v@,
{
    match String::from_utf8(v) {
        Ok(s) => Some(s),
        Err(_) => None,
    }
}

} // verus!
