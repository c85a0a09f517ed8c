//! The payload codec: values become opaque payload bytes and back through
//! bincode's fixed-width little-endian format. The calls into bincode stand
//! behind trusted wrappers; everything layered on them is verified against
//! the contracts stated here.

use vstd::prelude::*;
use crate::errors::SerdeReadError;

verus! {

/// The little-endian reading of the first four bytes of `b`.
pub open spec fn le_bytes_to_u32(b: Seq<u8>) -> u32
    recommends
        b.len() >= 4,
{
    ((b[0] as int) + (b[1] as int) * 0x100 + (b[2] as int) * 0x10000 + (b[3] as int)
        * 0x1000000) as u32
}

/// The serialized form of a 32-bit integer: its four little-endian bytes.
pub open spec fn wire_u32(v: u32) -> Seq<u8> {
    seq![
        ((v as int) % 0x100) as u8,
        (((v as int) / 0x100) % 0x100) as u8,
        (((v as int) / 0x10000) % 0x100) as u8,
        (((v as int) / 0x1000000) % 0x100) as u8,
    ]
}

/// The serialized form of a string. It is a function of the characters alone;
/// its exact bytes (a length prefix, then the UTF-8 bytes) are not spelled
/// out here.
pub uninterp spec fn wire_str(s: Seq<char>) -> Seq<u8>;

/// What decoding string bytes must yield: on the serialized form of some
/// string, exactly that string.
pub open spec fn str_decoding_of(r: Result<String, SerdeReadError>, b: Seq<u8>) -> bool {
    forall|s: Seq<char>| b == #[trigger] wire_str(s) ==> (r matches Ok(v) && v@ == s)
}

/// Decoding the serialized form of a 32-bit integer yields it back.
pub proof fn lemma_u32_codec_round_trip(v: u32)
    ensures
        le_bytes_to_u32(wire_u32(v)) == v,
{
    assert(v % 0x100 + v / 0x100 % 0x100 * 0x100 + v / 0x10000 % 0x100 * 0x10000 + v / 0x1000000
        % 0x100 * 0x1000000 == v) by (bit_vector);
}

/// Relies on bincode::serialize: with its fixed-width little-endian
/// configuration a u32 becomes exactly its four little-endian bytes, and
/// serializing into a fresh Vec cannot fail for an integer.
#[verifier::external_body]
pub fn encode_u32(v: u32) -> (r: Vec<u8>)
    ensures
        r@ == wire_u32(v),
{
    bincode::serialize(&v).unwrap()
}

/// Relies on bincode::deserialize: it reads a u32 as the first four bytes
/// little-endian, accepts trailing bytes, and fails on a shorter input.
#[verifier::external_body]
pub fn decode_u32(b: &Vec<u8>) -> (r: Result<u32, SerdeReadError>)
    ensures
        r == (if b@.len() >= 4 {
            Ok::<u32, SerdeReadError>(le_bytes_to_u32(b@))
        } else {
            Err::<u32, SerdeReadError>(SerdeReadError::Serde)
        }),
{
    bincode::deserialize(b.as_slice()).map_err(|_| SerdeReadError::Serde)
}

/// Relies on bincode::serialize: the bytes of a string depend on its
/// characters alone, and serializing a string into a fresh Vec cannot fail.
#[verifier::external_body]
pub fn encode_str(s: &String) -> (r: Vec<u8>)
    ensures
        r@ == wire_str(s@),
{
    bincode::serialize(s).unwrap()
}

/// Relies on bincode::deserialize: it inverts bincode::serialize, so bytes
/// that are the serialized form of a string decode to that string.
#[verifier::external_body]
pub fn decode_str(b: &Vec<u8>) -> (r: Result<String, SerdeReadError>)
    ensures
        str_decoding_of(r, b@),
{
    bincode::deserialize(b.as_slice()).map_err(|_| SerdeReadError::Serde)
}

} // verus!
