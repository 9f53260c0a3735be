//! The fixed PNG framing bytes and the scan for the end marker.
use vstd::prelude::*;

use crate::bytes::be32_at;

verus! {

/// The fixed eight-byte signature that opens every PNG file.
pub open spec fn spec_png_signature() -> Seq<u8> {
    seq![0x89u8, 0x50u8, 0x4Eu8, 0x47u8, 0x0Du8, 0x0Au8, 0x1Au8, 0x0Au8]
}

/// The fixed twelve-byte end marker: a zero-length IEND chunk with its CRC.
pub open spec fn spec_png_end() -> Seq<u8> {
    seq![0u8, 0u8, 0u8, 0u8, 0x49u8, 0x45u8, 0x4Eu8, 0x44u8, 0xAEu8, 0x42u8, 0x60u8, 0x82u8]
}

/// True when `img` starts with the PNG signature.
pub open spec fn has_png_signature(img: Seq<u8>) -> bool {
    img.len() >= 8 && img.subrange(0, 8) == spec_png_signature()
}

/// True when the twelve end-marker bytes stand at `i`.
pub open spec fn png_end_at(b: Seq<u8>, i: int) -> bool {
    0 <= i && i + 12 <= b.len() && b.subrange(i, i + 12) == spec_png_end()
}

/// The position of the first end marker at or after `i`, if any.
pub open spec fn spec_find_png_end(b: Seq<u8>, i: int) -> Option<int>
    decreases b.len() - i + 12,
{
    if i < 0 || i + 12 > b.len() {
        None
    } else if png_end_at(b, i) {
        Some(i)
    } else {
        spec_find_png_end(b, i + 1)
    }
}

/// One past the first chunk: the signature, then the chunk's length field,
/// type, payload and CRC.
pub open spec fn spec_header_end(img: Seq<u8>) -> int
    recommends
        img.len() >= 12,
{
    20 + be32_at(img, 8)
}

/// The four type bytes of an IEND chunk.
pub open spec fn iend_type() -> Seq<u8> {
    seq![0x49u8, 0x45u8, 0x4Eu8, 0x44u8]
}

/// A chunk walk from `pos` to the buffer's end: each chunk's length field
/// carries the walk to the next chunk, no chunk on the way bears the IEND
/// type, and the buffer ends with exactly the twelve end-marker bytes.
pub open spec fn chunk_walk_ok(b: Seq<u8>, pos: int) -> bool
    decreases b.len() - pos,
{
    if pos < 0 || pos + 12 > b.len() {
        false
    } else if pos + 12 == b.len() {
        b.subrange(pos, pos + 12) == spec_png_end()
    } else if b.subrange(pos + 4, pos + 8) == iend_type() {
        false
    } else {
        let sz = 12 + be32_at(b, pos);
        if pos + sz > b.len() {
            false
        } else {
            chunk_walk_ok(b, pos + sz)
        }
    }
}

/// True when `b[from..to)` is a run of whole chunks, none of type IEND.
pub open spec fn chunks_cover(b: Seq<u8>, from: int, to: int) -> bool
    decreases to - from,
{
    if from == to {
        true
    } else if from < 0 || from + 12 > to || to > b.len() {
        false
    } else if b.subrange(from + 4, from + 8) == iend_type() {
        false
    } else {
        let sz = 12 + be32_at(b, from);
        if from + sz > to {
            false
        } else {
            chunks_cover(b, from + sz, to)
        }
    }
}

/// A found end marker really stands, whole, where the search says.
pub proof fn lemma_find_png_end_some(b: Seq<u8>, i: int)
    requires
        spec_find_png_end(b, i) is Some,
    ensures
        png_end_at(b, spec_find_png_end(b, i).unwrap()),
        spec_find_png_end(b, i).unwrap() >= i,
    decreases b.len() - i + 12,
{
    if i < 0 || i + 12 > b.len() {
    } else if png_end_at(b, i) {
    } else {
        lemma_find_png_end_some(b, i + 1);
    }
}

/// Checks that a buffer begins with the eight PNG signature bytes.
pub fn check_png_signature(img: &[u8]) -> (r: bool)
    ensures
        r == has_png_signature(img@),
{
    if img.len() < 8 {
        return false;
    }
    let ok = img[0] == 0x89 && img[1] == 0x50 && img[2] == 0x4E && img[3] == 0x47
        && img[4] == 0x0D && img[5] == 0x0A && img[6] == 0x1A && img[7] == 0x0A;
    proof {
        if ok {
            assert(img@.subrange(0, 8) =~= spec_png_signature());
        } else {
            if img@.subrange(0, 8) == spec_png_signature() {
                assert(img@[0] == spec_png_signature()[0]);
                assert(img@[1] == spec_png_signature()[1]);
                assert(img@[2] == spec_png_signature()[2]);
                assert(img@[3] == spec_png_signature()[3]);
                assert(img@[4] == spec_png_signature()[4]);
                assert(img@[5] == spec_png_signature()[5]);
                assert(img@[6] == spec_png_signature()[6]);
                assert(img@[7] == spec_png_signature()[7]);
            }
        }
    }
    ok
}

/// Tests whether the end marker stands at `i`.
fn png_end_here(b: &[u8], i: usize) -> (r: bool)
    requires
        i + 12 <= b@.len(),
    ensures
        r == png_end_at(b@, i as int),
{
    let ok = b[i] == 0 && b[i + 1] == 0 && b[i + 2] == 0 && b[i + 3] == 0 && b[i + 4] == 0x49
        && b[i + 5] == 0x45 && b[i + 6] == 0x4E && b[i + 7] == 0x44 && b[i + 8] == 0xAE
        && b[i + 9] == 0x42 && b[i + 10] == 0x60 && b[i + 11] == 0x82;
    proof {
        let s = b@.subrange(i as int, i + 12);
        if ok {
            assert(s =~= spec_png_end());
        } else {
            if s == spec_png_end() {
                assert(b@[i + 0] == s[0] && b@[i + 1] == s[1] && b@[i + 2] == s[2] && b@[i + 3]
                    == s[3] && b@[i + 4] == s[4] && b@[i + 5] == s[5] && b@[i + 6] == s[6] && b@[i
                    + 7] == s[7] && b@[i + 8] == s[8] && b@[i + 9] == s[9] && b@[i + 10] == s[10]
                    && b@[i + 11] == s[11]);
            }
        }
    }
    ok
}

/// Scans forward for the first occurrence of the PNG end marker.
pub fn find_iend_loc(b: &[u8]) -> (r: Option<usize>)
    ensures
        match r {
            Some(i) => spec_find_png_end(b@, 0) == Some(i as int) && i + 12 <= b@.len(),
            None => spec_find_png_end(b@, 0) is None,
        },
{
    if b.len() < 12 {
        return None;
    }
    let mut i: usize = 0;
    while i <= b.len() - 12
        invariant
            0 <= i,
            i <= b@.len() - 12 + 1,
            b@.len() >= 12,
            spec_find_png_end(b@, 0) == spec_find_png_end(b@, i as int),
        decreases b@.len() - i,
    {
        if png_end_here(b, i) {
            return Some(i);
        }
        i = i + 1;
    }
    None
}

} // verus!
