//! Serialization of one PNG chunk: length, type, payload and CRC.
use vstd::prelude::*;

use crate::bytes::be32_bytes;

verus! {

/// The CRC-32 checksum (reflected polynomial, all-ones initial value) of a
/// byte sequence, as the checksum routine computes it.
pub uninterp spec fn crc32_of(b: Seq<u8>) -> u32;

/// Relies on crc_any::CRC::crc32, digest and get_crc: the standard CRC-32 of
/// the digested bytes, which depends on those bytes alone.
#[verifier::external_body]
fn crc32(data: &[u8]) -> (r: u32)
    ensures
        r == crc32_of(data@),
{
    let mut crc = crc_any::CRC::crc32();
    crc.digest(data);
    crc.get_crc() as u32
}

/// A serialized chunk: big-endian payload length, the four type bytes, the
/// payload, then the big-endian CRC of type and payload.
pub open spec fn chunk_bytes(typ: Seq<u8>, payload: Seq<u8>) -> Seq<u8> {
    be32_bytes(payload.len() as int) + typ + payload + be32_bytes(crc32_of(typ + payload) as int)
}

/// The serialized size of a chunk with a payload of `n` bytes.
pub open spec fn chunk_size(n: int) -> int {
    12 + n
}

/// Appends the four bytes of `v` in big-endian order.
pub fn push_be32(out: &mut Vec<u8>, v: u32)
    ensures
        final(out)@ == old(out)@ + be32_bytes(v as int),
{
    out.push((v / 16777216 % 256) as u8);
    out.push((v / 65536 % 256) as u8);
    out.push((v / 256 % 256) as u8);
    out.push((v % 256) as u8);
    proof {
        assert(out@ =~= old(out)@ + be32_bytes(v as int));
    }
}

/// Serializes one chunk of type `typ` around `payload` and appends it to
/// `out`, returning the number of bytes written.
pub fn append_chunk(out: &mut Vec<u8>, typ: &[u8], payload: &[u8]) -> (n: usize)
    requires
        typ@.len() == 4,
        payload@.len() <= 0xFFFF_FFFF,
        old(out)@.len() + chunk_size(payload@.len() as int) <= usize::MAX,
    ensures
        final(out)@ == old(out)@ + chunk_bytes(typ@, payload@),
        n == chunk_size(payload@.len() as int),
{
    let len: u32 = payload.len() as u32;
    push_be32(out, len);
    crate::bytes::append_range(out, typ, 0, 4);
    crate::bytes::append_range(out, payload, 0, payload.len());
    let mut digest_input: Vec<u8> = Vec::new();
    crate::bytes::append_range(&mut digest_input, typ, 0, 4);
    crate::bytes::append_range(&mut digest_input, payload, 0, payload.len());
    proof {
        assert(digest_input@ =~= typ@ + payload@);
        assert(typ@.subrange(0, 4) =~= typ@);
        assert(payload@.subrange(0, payload@.len() as int) =~= payload@);
    }
    let c = crc32(digest_input.as_slice());
    push_be32(out, c);
    proof {
        assert(out@ =~= old(out)@ + chunk_bytes(typ@, payload@));
    }
    12 + payload.len()
}

} // verus!
