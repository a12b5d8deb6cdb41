//! The calls into the codec that turns byte strings into self-delimiting
//! encodings and back. These two functions are the only ones whose contracts
//! are taken on trust; everything built on them is verified.

use crate::model::{can_decode_at, decoded_at, enc};
use vstd::prelude::*;

verus! {

/// Relies on `bincode::serialize` with that crate's default configuration
/// (little-endian, fixed-width integers, no size limit): a byte string is
/// encoded as its length in eight little-endian bytes followed by the bytes
/// themselves. On a byte string the call cannot fail: with no size limit the
/// size computation never errs, and writing into a vector never errs either.
#[verifier::external_body]
pub(crate) fn encode_bytes(v: &Vec<u8>) -> (r: Result<Vec<u8>, String>)
    ensures
        r is Ok,
        r->Ok_0@ == enc(v@),
{
    match bincode::serialize(v) {
        Ok(b) => Ok(b),
        Err(e) => Err(format!("{}", e)),
    }
}

/// Relies on `bincode::deserialize_from` with that crate's default
/// configuration (little-endian, fixed-width integers, no size limit): it
/// reads an eight-byte little-endian length, then exactly that many bytes,
/// and fails exactly when the bytes on hand run out before that.
#[verifier::external_body]
pub(crate) fn decode_bytes_at(log: &Vec<u8>, off: usize) -> (r: Result<Vec<u8>, String>)
    requires
        off <= log@.len(),
    ensures
        r is Ok <==> can_decode_at(log@, off as int),
        r is Ok ==> r->Ok_0@ == decoded_at(log@, off as int),
{
    match bincode::deserialize_from::<&[u8], Vec<u8>>(&log[off..]) {
        Ok(v) => Ok(v),
        Err(e) => Err(format!("{}", e)),
    }
}

} // verus!
