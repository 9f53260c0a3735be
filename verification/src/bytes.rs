//! Fixed-width little- and big-endian fields over byte buffers, as specs and
//! as verified readers and writers.
use vstd::prelude::*;

verus! {

/// The 16-bit little-endian value stored at `off`.
pub open spec fn le16_at(b: Seq<u8>, off: int) -> int
    recommends
        0 <= off,
        off + 2 <= b.len(),
{
    b[off] + 256 * b[off + 1]
}

/// The 32-bit little-endian value stored at `off`.
pub open spec fn le32_at(b: Seq<u8>, off: int) -> int
    recommends
        0 <= off,
        off + 4 <= b.len(),
{
    b[off] + 256 * b[off + 1] + 65536 * b[off + 2] + 16777216 * b[off + 3]
}

/// The 32-bit big-endian value stored at `off`.
pub open spec fn be32_at(b: Seq<u8>, off: int) -> int
    recommends
        0 <= off,
        off + 4 <= b.len(),
{
    16777216 * b[off] + 65536 * b[off + 1] + 256 * b[off + 2] + b[off + 3]
}

/// The four bytes of `v` in big-endian order.
pub open spec fn be32_bytes(v: int) -> Seq<u8> {
    seq![
        ((v / 16777216) % 256) as u8,
        ((v / 65536) % 256) as u8,
        ((v / 256) % 256) as u8,
        (v % 256) as u8,
    ]
}

/// `b` with the 32-bit little-endian encoding of `v` stored at `off`.
pub open spec fn store_le32(b: Seq<u8>, off: int, v: int) -> Seq<u8>
    recommends
        0 <= off,
        off + 4 <= b.len(),
{
    b.update(off, (v % 256) as u8)
        .update(off + 1, ((v / 256) % 256) as u8)
        .update(off + 2, ((v / 65536) % 256) as u8)
        .update(off + 3, ((v / 16777216) % 256) as u8)
}

/// `b` with the 16-bit little-endian encoding of `v` stored at `off`.
pub open spec fn store_le16(b: Seq<u8>, off: int, v: int) -> Seq<u8>
    recommends
        0 <= off,
        off + 2 <= b.len(),
{
    b.update(off, (v % 256) as u8).update(off + 1, ((v / 256) % 256) as u8)
}

/// Reads the 16-bit little-endian field at `off`.
pub fn read_le16(b: &[u8], off: usize) -> (r: u16)
    requires
        off + 2 <= b@.len(),
    ensures
        r as int == le16_at(b@, off as int),
{
    let b0 = b[off] as u16;
    let b1 = b[off + 1] as u16;
    b0 + 256 * b1
}

/// Reads the 32-bit little-endian field at `off`.
pub fn read_le32(b: &[u8], off: usize) -> (r: u32)
    requires
        off + 4 <= b@.len(),
    ensures
        r as int == le32_at(b@, off as int),
{
    let b0 = b[off] as u32;
    let b1 = b[off + 1] as u32;
    let b2 = b[off + 2] as u32;
    let b3 = b[off + 3] as u32;
    b0 + 256 * b1 + 65536 * b2 + 16777216 * b3
}

/// Reads the 32-bit big-endian field at `off`.
pub fn read_be32(b: &[u8], off: usize) -> (r: u32)
    requires
        off + 4 <= b@.len(),
    ensures
        r as int == be32_at(b@, off as int),
{
    let b0 = b[off] as u32;
    let b1 = b[off + 1] as u32;
    let b2 = b[off + 2] as u32;
    let b3 = b[off + 3] as u32;
    16777216 * b0 + 65536 * b1 + 256 * b2 + b3
}

/// Overwrites the four bytes at `off` with `v` in little-endian order.
pub fn write_le32(b: &mut Vec<u8>, off: usize, v: u32)
    requires
        off + 4 <= old(b)@.len(),
    ensures
        final(b)@ == store_le32(old(b)@, off as int, v as int),
{
    let v0 = (v % 256) as u8;
    let v1 = ((v / 256) % 256) as u8;
    let v2 = ((v / 65536) % 256) as u8;
    let v3 = ((v / 16777216) % 256) as u8;
    b.as_mut_slice()[off] = v0;
    b.as_mut_slice()[off + 1] = v1;
    b.as_mut_slice()[off + 2] = v2;
    b.as_mut_slice()[off + 3] = v3;
}

/// Overwrites the two bytes at `off` with `v` in little-endian order.
pub fn write_le16(b: &mut Vec<u8>, off: usize, v: u16)
    requires
        off + 2 <= old(b)@.len(),
    ensures
        final(b)@ == store_le16(old(b)@, off as int, v as int),
{
    let v0 = (v % 256) as u8;
    let v1 = ((v / 256) % 256) as u8;
    b.as_mut_slice()[off] = v0;
    b.as_mut_slice()[off + 1] = v1;
}

/// Appends `src[from..to]` to `out`.
pub fn append_range(out: &mut Vec<u8>, src: &[u8], from: usize, to: usize)
    requires
        from <= to <= src@.len(),
    ensures
        final(out)@ == old(out)@ + src@.subrange(from as int, to as int),
{
    let mut k: usize = from;
    while k < to
        invariant
            from <= k <= to <= src@.len(),
            out@ == old(out)@ + src@.subrange(from as int, k as int),
        decreases to - k,
    {
        out.push(src[k]);
        proof {
            assert(old(out)@ + src@.subrange(from as int, (k + 1) as int) =~= (old(out)@
                + src@.subrange(from as int, k as int)).push(src@[k as int]));
        }
        k = k + 1;
    }
    proof {
        assert(out@ =~= old(out)@ + src@.subrange(from as int, to as int));
    }
}

} // verus!
