//! What composition guarantees, proved over the composite's bytes.
use vstd::prelude::*;

use crate::bytes::{le16_at, le32_at, store_le16, store_le32};
use crate::compose::{
    chunks_len, compose_ok, entry_chunk, entry_chunk_total, entry_chunks, lemma_chunks_len_nonneg,
    lemma_chunks_len_split, patch_entries, spec_cd_new_offset, spec_composite,
    spec_keyword, spec_patched_archive, spec_text_type,
};
use crate::png::{spec_find_png_end, spec_header_end};
use crate::ziplayout::spec_zip_layout;

verus! {

/// A run of wrapped entry chunks is as long as `chunks_len` says.
pub proof fn lemma_entry_chunks_len(z: Seq<u8>, es: Seq<(int, int, int)>)
    requires
        forall|k: int| 0 <= k < es.len() ==> 0 <= (#[trigger] es[k]).0 <= es[k].1 <= z.len(),
    ensures
        entry_chunks(z, es).len() == chunks_len(es),
    decreases es.len(),
{
    if es.len() > 0 {
        assert(forall|k: int|
            0 <= k < es.drop_first().len() ==> #[trigger] es.drop_first()[k] == es[k + 1]);
        lemma_entry_chunks_len(z, es.drop_first());
        assert(z.subrange(es[0].0, es[0].1).len() == es[0].1 - es[0].0);
    }
}

/// Storing a 32-bit little-endian value and reading it back yields the value.
pub proof fn lemma_le32_roundtrip(b: Seq<u8>, off: int, v: int)
    requires
        0 <= off,
        off + 4 <= b.len(),
        0 <= v <= 0xFFFF_FFFF,
    ensures
        le32_at(store_le32(b, off, v), off) == v,
{
    let x = v as u32;
    assert(x % 256 + 256 * ((x / 256) % 256) + 65536 * ((x / 65536) % 256) + 16777216 * ((x
        / 16777216) % 256) == x) by (bit_vector);
    let s = store_le32(b, off, v);
    assert(s[off] == (v % 256) as u8);
    assert(s[off + 1] == ((v / 256) % 256) as u8);
    assert(s[off + 2] == ((v / 65536) % 256) as u8);
    assert(s[off + 3] == ((v / 16777216) % 256) as u8);
}

/// Patching entry offsets does not change the buffer's size.
pub proof fn lemma_patch_entries_len(z: Seq<u8>, es: Seq<(int, int, int)>, pos: int)
    requires
        forall|k: int| 0 <= k < es.len() ==> 0 <= (#[trigger] es[k]).2 && es[k].2 + 46 <= z.len(),
    ensures
        patch_entries(z, es, pos).len() == z.len(),
    decreases es.len(),
{
    if es.len() > 0 {
        assert(forall|k: int|
            0 <= k < es.drop_first().len() ==> #[trigger] es.drop_first()[k] == es[k + 1]);
        lemma_patch_entries_len(
            store_le32(z, es[0].2 + 42, pos + 16),
            es.drop_first(),
            pos + entry_chunk_total(es[0]),
        );
    }
}

/// Patching entry offsets leaves every byte outside the patched fields as it
/// was.
pub proof fn lemma_patch_entries_untouched(z: Seq<u8>, es: Seq<(int, int, int)>, pos: int, j: int)
    requires
        forall|k: int| 0 <= k < es.len() ==> 0 <= (#[trigger] es[k]).2 && es[k].2 + 46 <= z.len(),
        forall|k: int| 0 <= k < es.len() ==> !((#[trigger] es[k]).2 + 42 <= j < es[k].2 + 46),
    ensures
        0 <= j < z.len() ==> patch_entries(z, es, pos)[j] == z[j],
    decreases es.len(),
{
    if es.len() > 0 {
        assert(forall|k: int|
            0 <= k < es.drop_first().len() ==> #[trigger] es.drop_first()[k] == es[k + 1]);
        lemma_patch_entries_untouched(
            store_le32(z, es[0].2 + 42, pos + 16),
            es.drop_first(),
            pos + entry_chunk_total(es[0]),
            j,
        );
    }
}

/// After patching, entry `i`'s record holds the absolute position its chunk's
/// wrapped local header occupies: the running position plus the chunk header
/// and keyword.
#[verifier::rlimit(100)]
pub proof fn lemma_patch_entries_field(z: Seq<u8>, es: Seq<(int, int, int)>, pos: int, i: int)
    requires
        0 <= i < es.len(),
        forall|k: int| 0 <= k < es.len() ==> (#[trigger] es[k]).0 <= es[k].1,
        forall|k: int| 0 <= k < es.len() ==> 0 <= (#[trigger] es[k]).2 && es[k].2 + 46 <= z.len(),
        forall|k: int, l: int| 0 <= k < l < es.len() ==> #[trigger] es[k].2 + 46 <= #[trigger] es[l].2,
        0 <= pos,
        pos + chunks_len(es) + 16 <= 0xFFFF_FFFF,
    ensures
        le32_at(patch_entries(z, es, pos), es[i].2 + 42) == pos + chunks_len(es.take(i)) + 16,
    decreases es.len(),
{
    let z1 = store_le32(z, es[0].2 + 42, pos + 16);
    let rest = es.drop_first();
    assert(forall|k: int| 0 <= k < rest.len() ==> #[trigger] rest[k] == es[k + 1]);
    assert(forall|k: int| 0 <= k < rest.len() ==> (#[trigger] rest[k]).0 <= rest[k].1);
    assert(es.take(0) =~= Seq::<(int, int, int)>::empty());
    lemma_chunks_len_nonneg(rest);
    if i == 0 {
        lemma_le32_roundtrip(z, es[0].2 + 42, pos + 16);
        assert(forall|k: int|
            0 <= k < rest.len() ==> !((#[trigger] rest[k]).2 + 42 <= es[0].2 + 42 < rest[k].2
                + 46));
        assert(forall|k: int|
            0 <= k < rest.len() ==> !((#[trigger] rest[k]).2 + 42 <= es[0].2 + 43 < rest[k].2
                + 46));
        assert(forall|k: int|
            0 <= k < rest.len() ==> !((#[trigger] rest[k]).2 + 42 <= es[0].2 + 44 < rest[k].2
                + 46));
        assert(forall|k: int|
            0 <= k < rest.len() ==> !((#[trigger] rest[k]).2 + 42 <= es[0].2 + 45 < rest[k].2
                + 46));
        lemma_patch_entries_untouched(z1, rest, pos + entry_chunk_total(es[0]), es[0].2 + 42);
        lemma_patch_entries_untouched(z1, rest, pos + entry_chunk_total(es[0]), es[0].2 + 43);
        lemma_patch_entries_untouched(z1, rest, pos + entry_chunk_total(es[0]), es[0].2 + 44);
        lemma_patch_entries_untouched(z1, rest, pos + entry_chunk_total(es[0]), es[0].2 + 45);
    } else {
        lemma_patch_entries_field(z1, rest, pos + entry_chunk_total(es[0]), i - 1);
        assert(es.take(i).drop_first() =~= rest.take(i - 1));
        assert(chunks_len(es.take(i)) == entry_chunk_total(es[0]) + chunks_len(rest.take(i - 1)));
    }
}

/// Indexing a five-part concatenation inside the fourth part.
pub proof fn lemma_concat5_fourth(
    a: Seq<u8>,
    b: Seq<u8>,
    c: Seq<u8>,
    d: Seq<u8>,
    t: Seq<u8>,
    idx: int,
)
    requires
        a.len() + b.len() + c.len() <= idx < a.len() + b.len() + c.len() + d.len(),
    ensures
        (a + b + c + d + t)[idx] == d[idx - a.len() - b.len() - c.len()],
{
}

/// A serialized chunk is twelve bytes longer than its payload.
pub proof fn lemma_chunk_len(typ: Seq<u8>, payload: Seq<u8>)
    requires
        typ.len() == 4,
    ensures
        crate::chunk::chunk_bytes(typ, payload).len() == 12 + payload.len(),
{
}

/// A serialized chunk holds its payload behind the length and type fields.
pub proof fn lemma_chunk_byte(typ: Seq<u8>, payload: Seq<u8>, k: int)
    requires
        typ.len() == 4,
        0 <= k < payload.len(),
    ensures
        crate::chunk::chunk_bytes(typ, payload)[8 + k] == payload[k],
{
}

/// A run of a five-part concatenation inside the second part.
pub proof fn lemma_concat5_second_range(
    a: Seq<u8>,
    b: Seq<u8>,
    c: Seq<u8>,
    d: Seq<u8>,
    t: Seq<u8>,
    lo: int,
    hi: int,
)
    requires
        0 <= lo <= hi <= b.len(),
    ensures
        (a + b + c + d + t).subrange(a.len() + lo, a.len() + hi) == b.subrange(lo, hi),
{
    assert((a + b + c + d + t).subrange(a.len() + lo, a.len() + hi) =~= b.subrange(lo, hi));
}

/// A run of a five-part concatenation inside the fourth part.
pub proof fn lemma_concat5_fourth_range(
    a: Seq<u8>,
    b: Seq<u8>,
    c: Seq<u8>,
    d: Seq<u8>,
    t: Seq<u8>,
    lo: int,
    hi: int,
)
    requires
        0 <= lo <= hi <= d.len(),
    ensures
        (a + b + c + d + t).subrange(
            a.len() + b.len() + c.len() + lo,
            a.len() + b.len() + c.len() + hi,
        ) == d.subrange(lo, hi),
{
    assert((a + b + c + d + t).subrange(
        a.len() + b.len() + c.len() + lo,
        a.len() + b.len() + c.len() + hi,
    ) =~= d.subrange(lo, hi));
}

/// A run of a serialized chunk's payload.
pub proof fn lemma_chunk_payload_range(typ: Seq<u8>, payload: Seq<u8>, lo: int, hi: int)
    requires
        typ.len() == 4,
        0 <= lo <= hi <= payload.len(),
    ensures
        crate::chunk::chunk_bytes(typ, payload).subrange(8 + lo, 8 + hi) == payload.subrange(
            lo,
            hi,
        ),
{
    assert(crate::chunk::chunk_bytes(typ, payload).subrange(8 + lo, 8 + hi) =~= payload.subrange(
        lo,
        hi,
    ));
}

/// Two buffers that agree on a four-byte run hold the same 32-bit
/// little-endian value there.
pub proof fn lemma_le32_of_subranges(o: Seq<u8>, p: Seq<u8>, io: int, ip: int)
    requires
        0 <= io,
        io + 4 <= o.len(),
        0 <= ip,
        ip + 4 <= p.len(),
        o.subrange(io, io + 4) == p.subrange(ip, ip + 4),
    ensures
        le32_at(o, io) == le32_at(p, ip),
{
    assert(o[io] == o.subrange(io, io + 4)[0]);
    assert(o[io + 1] == o.subrange(io, io + 4)[1]);
    assert(o[io + 2] == o.subrange(io, io + 4)[2]);
    assert(o[io + 3] == o.subrange(io, io + 4)[3]);
    assert(p[ip] == p.subrange(ip, ip + 4)[0]);
    assert(p[ip + 1] == p.subrange(ip, ip + 4)[1]);
    assert(p[ip + 2] == p.subrange(ip, ip + 4)[2]);
    assert(p[ip + 3] == p.subrange(ip, ip + 4)[3]);
}

/// The end-record patches leave every four-byte run below the patched
/// fields as it was.
pub proof fn lemma_eocd_patch_away(p: Seq<u8>, e: int, v: int, w: int, off: int)
    requires
        0 <= off,
        off + 4 <= e + 16,
        e + 22 <= p.len(),
    ensures
        store_le16(store_le32(p, e + 16, v), e + 20, w).subrange(off, off + 4) == p.subrange(
            off,
            off + 4,
        ),
{
    assert(store_le16(store_le32(p, e + 16, v), e + 20, w).subrange(off, off + 4) =~= p.subrange(
        off,
        off + 4,
    ));
}

/// A prefix of the wrapped chunks, with its next chunk, fits inside the
/// whole run.
pub proof fn lemma_chunk_prefix_bound(es: Seq<(int, int, int)>, i: int)
    requires
        0 <= i < es.len(),
        forall|k: int| 0 <= k < es.len() ==> (#[trigger] es[k]).0 <= es[k].1,
    ensures
        0 <= chunks_len(es.take(i)),
        chunks_len(es.take(i)) + entry_chunk_total(es[i]) <= chunks_len(es),
{
    lemma_chunks_len_split(es, i);
    lemma_chunks_len_split(es, i + 1);
    assert(forall|k: int|
        0 <= k < es.take(i).len() ==> (#[trigger] es.take(i)[k]).0 <= es.take(i)[k].1);
    lemma_chunks_len_nonneg(es.take(i));
    assert(forall|k: int|
        0 <= k < es.skip(i + 1).len() ==> (#[trigger] es.skip(i + 1)[k]).0 <= es.skip(
            i + 1,
        )[k].1);
    lemma_chunks_len_nonneg(es.skip(i + 1));
    assert(es.take(i + 1) =~= es.take(i).push(es[i]));
    crate::compose::lemma_entry_chunks_snoc(Seq::<u8>::empty(), es.take(i), es[i]);
}

/// Dereferencing a patched offset field: in a buffer of this five-part
/// shape, the four bytes at the patched record field read as they stand in
/// the entry-patched archive.
pub proof fn lemma_offset_deref_generic(
    a1: Seq<u8>,
    b1: Seq<u8>,
    c1: Seq<u8>,
    t1: Seq<u8>,
    patched: Seq<u8>,
    p0: Seq<u8>,
    cd: int,
    e: int,
    rec: int,
    cd_new: int,
)
    requires
        patched == store_le16(store_le32(p0, e + 16, cd_new), e + 20, 12),
        e + 22 <= p0.len(),
        0 <= cd <= rec,
        rec + 46 <= e,
        a1.len() + b1.len() + c1.len() == cd_new - 16,
    ensures
        ({
            let payload = spec_keyword() + patched.subrange(cd, e + 22);
            let o = a1 + b1 + c1 + crate::chunk::chunk_bytes(spec_text_type(), payload) + t1;
            le32_at(o, cd_new + (rec - cd) + 42) == le32_at(p0, rec + 42)
        }),
{
    let payload = spec_keyword() + patched.subrange(cd, e + 22);
    let d1 = crate::chunk::chunk_bytes(spec_text_type(), payload);
    let o = a1 + b1 + c1 + d1 + t1;
    assert(patched.len() == p0.len());
    assert(payload.len() == 8 + (e + 22 - cd));
    lemma_chunk_len(spec_text_type(), payload);
    let plo = 8 + (rec + 42 - cd);
    lemma_chunk_payload_range(spec_text_type(), payload, plo, plo + 4);
    lemma_concat5_fourth_range(a1, b1, c1, d1, t1, 8 + plo, 8 + plo + 4);
    assert(payload.subrange(plo, plo + 4) =~= patched.subrange(rec + 42, rec + 46));
    lemma_eocd_patch_away(p0, e, cd_new, 12, rec + 42);
    assert(o.subrange(cd_new + (rec - cd) + 42, cd_new + (rec - cd) + 46) == p0.subrange(
        rec + 42,
        rec + 46,
    ));
    lemma_le32_of_subranges(o, p0, cd_new + (rec - cd) + 42, rec + 42);
}

/// The composite's five parts and their sizes.
#[verifier::rlimit(100)]
pub proof fn lemma_composite_shape(img: Seq<u8>, z: Seq<u8>)
    requires
        compose_ok(img, z),
    ensures
        ({
            let he = spec_header_end(img);
            let iend = spec_find_png_end(img, 0).unwrap();
            let layout = spec_zip_layout(z).unwrap();
            let e = layout.0;
            let cd = layout.1;
            let es = layout.2;
            let patched = spec_patched_archive(img, z);
            let payload = spec_keyword() + patched.subrange(cd, e + 22);
            &&& spec_composite(img, z) == img.subrange(0, he) + entry_chunks(z, es)
                + img.subrange(he, iend) + crate::chunk::chunk_bytes(spec_text_type(), payload)
                + crate::png::spec_png_end()
            &&& img.subrange(0, he).len() == he
            &&& entry_chunks(z, es).len() == chunks_len(es)
            &&& img.subrange(he, iend).len() == iend - he
            &&& patched.len() == z.len()
            &&& payload.len() == 8 + (e + 22 - cd)
            &&& crate::chunk::chunk_bytes(spec_text_type(), payload).len() == 12 + payload.len()
            &&& crate::png::spec_png_end().len() == 12
            &&& 0 <= cd <= e && e + 22 <= z.len()
            &&& 8 <= he <= iend <= img.len()
            &&& spec_cd_new_offset(img, z) == he + chunks_len(es) + (iend - he) + 16
        }),
{
    let o = spec_composite(img, z);
    let he = spec_header_end(img);
    let iend = spec_find_png_end(img, 0).unwrap();
    let layout = spec_zip_layout(z).unwrap();
    let e = layout.0;
    let cd = layout.1;
    let es = layout.2;
    crate::png::lemma_find_png_end_some(img, 0);
    crate::ziplayout::lemma_parse_cd_bounds(
        z,
        cd,
        e,
        cd,
        crate::bytes::le16_at(z, e + 10) as nat,
    );
    lemma_entry_chunks_len(z, es);
    lemma_patch_entries_len(z, es, he);
    let patched = spec_patched_archive(img, z);
    assert(patched.len() == z.len());
    let payload = spec_keyword() + patched.subrange(cd, e + 22);
    lemma_chunk_len(spec_text_type(), payload);
    assert(o == img.subrange(0, he) + entry_chunks(z, es) + img.subrange(he, iend)
        + crate::chunk::chunk_bytes(spec_text_type(), payload) + crate::png::spec_png_end());
    assert(entry_chunks(z, es).len() == chunks_len(es));
    assert(0 <= cd <= e && e + 22 <= z.len());
    assert(8 <= he <= iend <= img.len());
}

/// Inside the composite, each byte of the final chunk's wrapped range reads
/// the patched archive's byte at the same place.
#[verifier::rlimit(100)]
pub proof fn lemma_composite_cd_byte(img: Seq<u8>, z: Seq<u8>, j: int)
    requires
        compose_ok(img, z),
        spec_zip_layout(z).unwrap().1 <= j < spec_zip_layout(z).unwrap().0 + 22,
    ensures
        spec_composite(img, z)[spec_cd_new_offset(img, z) + (j - spec_zip_layout(
            z,
        ).unwrap().1)] == spec_patched_archive(img, z)[j],
{
    let o = spec_composite(img, z);
    let he = spec_header_end(img);
    let iend = spec_find_png_end(img, 0).unwrap();
    let layout = spec_zip_layout(z).unwrap();
    let e = layout.0;
    let cd = layout.1;
    let es = layout.2;
    let cd_new = spec_cd_new_offset(img, z);
    lemma_composite_shape(img, z);
    let patched = spec_patched_archive(img, z);
    let a1 = img.subrange(0, he);
    let b1 = entry_chunks(z, es);
    let c1 = img.subrange(he, iend);
    let payload = spec_keyword() + patched.subrange(cd, e + 22);
    let d1 = crate::chunk::chunk_bytes(spec_text_type(), payload);
    let t1 = crate::png::spec_png_end();
    let idx = cd_new + (j - cd);
    lemma_concat5_fourth(a1, b1, c1, d1, t1, idx);
    lemma_chunk_byte(spec_text_type(), payload, 8 + (j - cd));
    assert(payload[8 + (j - cd)] == patched.subrange(cd, e + 22)[j - cd]);
}

/// Law: after composition the end record's comment-length field reads
/// exactly twelve, the size of the image end marker, whatever trailing
/// comment the donor archive carried.
#[verifier::rlimit(100)]
pub proof fn lemma_comment_length_is_twelve(img: Seq<u8>, z: Seq<u8>)
    requires
        compose_ok(img, z),
    ensures
        ({
            let layout = spec_zip_layout(z).unwrap();
            let eocd_in_o = spec_cd_new_offset(img, z) + (layout.0 - layout.1);
            le16_at(spec_composite(img, z), eocd_in_o + 20) == 12
        }),
{
    let he = spec_header_end(img);
    let layout = spec_zip_layout(z).unwrap();
    let e = layout.0;
    let cd = layout.1;
    let es = layout.2;
    crate::ziplayout::lemma_parse_cd_bounds(
        z,
        cd,
        e,
        cd,
        crate::bytes::le16_at(z, e + 10) as nat,
    );
    lemma_patch_entries_len(z, es, he);
    let patched = spec_patched_archive(img, z);
    assert(patched[e + 20] == 12u8);
    assert(patched[e + 21] == 0u8);
    lemma_composite_cd_byte(img, z, e + 20);
    lemma_composite_cd_byte(img, z, e + 21);
}

/// The bytes the chunks of a run of entries wrap: at offset `chunks_len` of
/// the preceding entries plus the chunk header and keyword stand that entry's
/// original local header and data bytes.
#[verifier::rlimit(100)]
pub proof fn lemma_entry_chunks_data(z: Seq<u8>, es: Seq<(int, int, int)>, i: int)
    requires
        0 <= i < es.len(),
        forall|k: int| 0 <= k < es.len() ==> 0 <= (#[trigger] es[k]).0 <= es[k].1 <= z.len(),
    ensures
        entry_chunks(z, es).subrange(
            chunks_len(es.take(i)) + 16,
            chunks_len(es.take(i)) + 16 + (es[i].1 - es[i].0),
        ) == z.subrange(es[i].0, es[i].1),
    decreases i,
{
    let b = entry_chunks(z, es);
    let rest = es.drop_first();
    assert(forall|k: int| 0 <= k < rest.len() ==> #[trigger] rest[k] == es[k + 1]);
    let c0 = entry_chunk(z, es[0]);
    assert(c0.len() == entry_chunk_total(es[0]));
    lemma_entry_chunks_len(z, rest);
    if i == 0 {
        assert(es.take(0) =~= Seq::<(int, int, int)>::empty());
        let sz = es[0].1 - es[0].0;
        assert forall|j: int| 0 <= j < sz implies #[trigger] b[16 + j] == z[es[0].0 + j] by {
            assert(b[16 + j] == c0[16 + j]);
            assert(c0[16 + j] == (spec_keyword() + z.subrange(es[0].0, es[0].1))[8 + j]);
        }
        assert(b.subrange(16, 16 + sz) =~= z.subrange(es[0].0, es[0].1));
    } else {
        lemma_entry_chunks_data(z, rest, i - 1);
        assert(es.take(i).drop_first() =~= rest.take(i - 1));
        assert(chunks_len(es.take(i)) == entry_chunk_total(es[0]) + chunks_len(rest.take(i - 1)));
        let off = chunks_len(rest.take(i - 1)) + 16;
        let sz = es[i].1 - es[i].0;
        assert(forall|k: int|
            0 <= k < rest.take(i - 1).len() ==> #[trigger] rest.take(i - 1)[k] == es[k + 1]);
        lemma_chunks_len_split(rest, i - 1);
        assert(forall|k: int|
            0 <= k < rest.take(i - 1).len() ==> (#[trigger] rest.take(i - 1)[k]).0 <= rest.take(
                i - 1,
            )[k].1);
        lemma_chunks_len_nonneg(rest.take(i - 1));
        assert(forall|k: int|
            0 <= k < rest.skip(i - 1).len() ==> (#[trigger] rest.skip(i - 1)[k]).0 <= rest.skip(
                i - 1,
            )[k].1);
        lemma_chunks_len_nonneg(rest.skip(i - 1));
        assert(rest.skip(i - 1)[0] == es[i]);
        assert(rest.skip(i - 1).drop_first() =~= rest.skip(i));
        assert(forall|k: int|
            0 <= k < rest.skip(i).len() ==> (#[trigger] rest.skip(i)[k]).0 <= rest.skip(i)[k].1);
        lemma_chunks_len_nonneg(rest.skip(i));
        assert(chunks_len(rest.skip(i - 1)) == entry_chunk_total(es[i]) + chunks_len(rest.skip(i)));
        assert(off + sz <= chunks_len(rest));
        assert forall|j: int| 0 <= j < sz implies #[trigger] b[c0.len() + off + j] == entry_chunks(
            z,
            rest,
        )[off + j] by {}
        assert(b.subrange(chunks_len(es.take(i)) + 16, chunks_len(es.take(i)) + 16 + sz)
            =~= entry_chunks(z, rest).subrange(off, off + sz));
    }
}

/// After composition, entry `i`'s record inside the composite holds the
/// absolute position of its wrapped local header.
#[verifier::rlimit(100)]
pub proof fn lemma_relocated_offset(img: Seq<u8>, z: Seq<u8>, i: int)
    requires
        compose_ok(img, z),
        0 <= i < spec_zip_layout(z).unwrap().2.len(),
    ensures
        ({
            let layout = spec_zip_layout(z).unwrap();
            let es = layout.2;
            let rec_in_o = spec_cd_new_offset(img, z) + (es[i].2 - layout.1);
            le32_at(spec_composite(img, z), rec_in_o + 42) == spec_header_end(img) + chunks_len(
                es.take(i),
            ) + 16
        }),
{
    let o = spec_composite(img, z);
    let he = spec_header_end(img);
    let layout = spec_zip_layout(z).unwrap();
    let e = layout.0;
    let cd = layout.1;
    let es = layout.2;
    let cd_new = spec_cd_new_offset(img, z);
    lemma_composite_shape(img, z);
    crate::ziplayout::lemma_parse_cd_bounds(
        z,
        cd,
        e,
        cd,
        crate::bytes::le16_at(z, e + 10) as nat,
    );
    let p0 = patch_entries(z, es, he);
    let patched = spec_patched_archive(img, z);
    assert(patched == store_le16(store_le32(p0, e + 16, cd_new), e + 20, 12));
    let rec = es[i].2;
    lemma_chunk_prefix_bound(es, i);
    lemma_patch_entries_field(z, es, he, i);
    lemma_patch_entries_len(z, es, he);
    let iend = spec_find_png_end(img, 0).unwrap();
    lemma_offset_deref_generic(
        img.subrange(0, he),
        entry_chunks(z, es),
        img.subrange(he, iend),
        crate::png::spec_png_end(),
        patched,
        p0,
        cd,
        e,
        rec,
        cd_new,
    );
}

/// After composition, the composite carries entry `i`'s original local
/// header and data bytes at the position its chunk wraps them.
#[verifier::rlimit(100)]
pub proof fn lemma_relocated_data(img: Seq<u8>, z: Seq<u8>, i: int)
    requires
        compose_ok(img, z),
        0 <= i < spec_zip_layout(z).unwrap().2.len(),
    ensures
        ({
            let es = spec_zip_layout(z).unwrap().2;
            let noff = spec_header_end(img) + chunks_len(es.take(i)) + 16;
            spec_composite(img, z).subrange(noff, noff + (es[i].1 - es[i].0)) == z.subrange(
                es[i].0,
                es[i].1,
            )
        }),
{
    let o = spec_composite(img, z);
    let he = spec_header_end(img);
    let layout = spec_zip_layout(z).unwrap();
    let e = layout.0;
    let cd = layout.1;
    let es = layout.2;
    lemma_composite_shape(img, z);
    crate::ziplayout::lemma_parse_cd_bounds(
        z,
        cd,
        e,
        cd,
        crate::bytes::le16_at(z, e + 10) as nat,
    );
    lemma_chunk_prefix_bound(es, i);
    let noff = he + chunks_len(es.take(i)) + 16;
    let sz = es[i].1 - es[i].0;
    lemma_entry_chunks_data(z, es, i);
    let iend = spec_find_png_end(img, 0).unwrap();
    let patched = spec_patched_archive(img, z);
    let payload = spec_keyword() + patched.subrange(cd, e + 22);
    lemma_concat5_second_range(
        img.subrange(0, he),
        entry_chunks(z, es),
        img.subrange(he, iend),
        crate::chunk::chunk_bytes(spec_text_type(), payload),
        crate::png::spec_png_end(),
        chunks_len(es.take(i)) + 16,
        chunks_len(es.take(i)) + 16 + sz,
    );
}

/// Law: every central-directory record's patched local-header-offset field,
/// dereferenced in the composite, points at the first byte of that entry's
/// original local-header bytes, whose run through the end of its compressed
/// data is copied there unchanged.
#[verifier::rlimit(100)]
pub proof fn lemma_entries_relocated(img: Seq<u8>, z: Seq<u8>, i: int)
    requires
        compose_ok(img, z),
        0 <= i < spec_zip_layout(z).unwrap().2.len(),
    ensures
        ({
            let o = spec_composite(img, z);
            let layout = spec_zip_layout(z).unwrap();
            let es = layout.2;
            let rec_in_o = spec_cd_new_offset(img, z) + (es[i].2 - layout.1);
            let noff = le32_at(o, rec_in_o + 42);
            &&& noff == spec_header_end(img) + chunks_len(es.take(i)) + 16
            &&& o.subrange(noff, noff + (es[i].1 - es[i].0)) == z.subrange(es[i].0, es[i].1)
        }),
{
    lemma_relocated_offset(img, z, i);
    lemma_relocated_data(img, z, i);
}


/// Law: the wrapped central directory and end record reach the composite
/// unchanged outside the three patched fields.
#[verifier::rlimit(100)]
pub proof fn lemma_central_directory_preserved(img: Seq<u8>, z: Seq<u8>, j: int)
    requires
        compose_ok(img, z),
        spec_zip_layout(z).unwrap().1 <= j < spec_zip_layout(z).unwrap().0 + 22,
        j < spec_zip_layout(z).unwrap().0 + 16 || spec_zip_layout(z).unwrap().0 + 22 <= j,
        forall|k: int|
            0 <= k < spec_zip_layout(z).unwrap().2.len() ==> !((#[trigger] spec_zip_layout(
                z,
            ).unwrap().2[k]).2 + 42 <= j < spec_zip_layout(z).unwrap().2[k].2 + 46),
    ensures
        spec_composite(img, z)[spec_cd_new_offset(img, z) + (j - spec_zip_layout(
            z,
        ).unwrap().1)] == z[j],
{
    let he = spec_header_end(img);
    let layout = spec_zip_layout(z).unwrap();
    let e = layout.0;
    let cd = layout.1;
    let es = layout.2;
    lemma_composite_shape(img, z);
    crate::ziplayout::lemma_parse_cd_bounds(
        z,
        cd,
        e,
        cd,
        crate::bytes::le16_at(z, e + 10) as nat,
    );
    lemma_composite_cd_byte(img, z, j);
    let p0 = patch_entries(z, es, he);
    lemma_patch_entries_len(z, es, he);
    let patched = spec_patched_archive(img, z);
    assert(patched == store_le16(store_le32(p0, e + 16, spec_cd_new_offset(img, z)), e + 20, 12));
    assert(patched[j] == p0[j]);
    lemma_patch_entries_untouched(z, es, he, j);
}


/// A run of a five-part concatenation inside the first part.
pub proof fn lemma_concat5_first_range(
    a: Seq<u8>,
    b: Seq<u8>,
    c: Seq<u8>,
    d: Seq<u8>,
    t: Seq<u8>,
    lo: int,
    hi: int,
)
    requires
        0 <= lo <= hi <= a.len(),
    ensures
        (a + b + c + d + t).subrange(lo, hi) == a.subrange(lo, hi),
{
    assert((a + b + c + d + t).subrange(lo, hi) =~= a.subrange(lo, hi));
}

/// A run of a five-part concatenation inside the third part.
pub proof fn lemma_concat5_third_range(
    a: Seq<u8>,
    b: Seq<u8>,
    c: Seq<u8>,
    d: Seq<u8>,
    t: Seq<u8>,
    lo: int,
    hi: int,
)
    requires
        0 <= lo <= hi <= c.len(),
    ensures
        (a + b + c + d + t).subrange(a.len() + b.len() + lo, a.len() + b.len() + hi)
            == c.subrange(lo, hi),
{
    assert((a + b + c + d + t).subrange(a.len() + b.len() + lo, a.len() + b.len() + hi)
        =~= c.subrange(lo, hi));
}

/// A run of a five-part concatenation inside the fifth part.
pub proof fn lemma_concat5_fifth_range(
    a: Seq<u8>,
    b: Seq<u8>,
    c: Seq<u8>,
    d: Seq<u8>,
    t: Seq<u8>,
    lo: int,
    hi: int,
)
    requires
        0 <= lo <= hi <= t.len(),
    ensures
        (a + b + c + d + t).subrange(
            a.len() + b.len() + c.len() + d.len() + lo,
            a.len() + b.len() + c.len() + d.len() + hi,
        ) == t.subrange(lo, hi),
{
    assert((a + b + c + d + t).subrange(
        a.len() + b.len() + c.len() + d.len() + lo,
        a.len() + b.len() + c.len() + d.len() + hi,
    ) =~= t.subrange(lo, hi));
}

/// Two buffers that agree on a four-byte run hold the same 32-bit
/// big-endian value there.
pub proof fn lemma_be32_of_subranges(o: Seq<u8>, p: Seq<u8>, io: int, ip: int)
    requires
        0 <= io,
        io + 4 <= o.len(),
        0 <= ip,
        ip + 4 <= p.len(),
        o.subrange(io, io + 4) == p.subrange(ip, ip + 4),
    ensures
        crate::bytes::be32_at(o, io) == crate::bytes::be32_at(p, ip),
{
    assert(o[io] == o.subrange(io, io + 4)[0]);
    assert(o[io + 1] == o.subrange(io, io + 4)[1]);
    assert(o[io + 2] == o.subrange(io, io + 4)[2]);
    assert(o[io + 3] == o.subrange(io, io + 4)[3]);
    assert(p[ip] == p.subrange(ip, ip + 4)[0]);
    assert(p[ip + 1] == p.subrange(ip, ip + 4)[1]);
    assert(p[ip + 2] == p.subrange(ip, ip + 4)[2]);
    assert(p[ip + 3] == p.subrange(ip, ip + 4)[3]);
}

/// The four big-endian bytes of a 32-bit value read back as the value.
pub proof fn lemma_be32_bytes_value(v: int, s: Seq<u8>)
    requires
        0 <= v <= 0xFFFF_FFFF,
    ensures
        crate::bytes::be32_at(crate::bytes::be32_bytes(v) + s, 0) == v,
{
    let x = v as u32;
    assert(16777216 * ((x / 16777216) % 256) + 65536 * ((x / 65536) % 256) + 256 * ((x / 256)
        % 256) + x % 256 == x) by (bit_vector);
    let w = crate::bytes::be32_bytes(v) + s;
    assert(w[0] == ((v / 16777216) % 256) as u8);
    assert(w[1] == ((v / 65536) % 256) as u8);
    assert(w[2] == ((v / 256) % 256) as u8);
    assert(w[3] == (v % 256) as u8);
}

/// A serialized chunk opens with its payload's length and its type bytes.
pub proof fn lemma_chunk_head(typ: Seq<u8>, payload: Seq<u8>)
    requires
        typ.len() == 4,
        0 <= payload.len() <= 0xFFFF_FFFF,
    ensures
        crate::chunk::chunk_bytes(typ, payload).subrange(4, 8) == typ,
        crate::bytes::be32_at(crate::chunk::chunk_bytes(typ, payload), 0) == payload.len(),
{
    let cb = crate::chunk::chunk_bytes(typ, payload);
    assert(cb.subrange(4, 8) =~= typ);
    lemma_be32_bytes_value(
        payload.len() as int,
        typ + payload + crate::bytes::be32_bytes(
            crate::chunk::crc32_of(typ + payload) as int,
        ),
    );
    assert(cb =~= crate::bytes::be32_bytes(payload.len() as int) + (typ + payload
        + crate::bytes::be32_bytes(crate::chunk::crc32_of(typ + payload) as int)));
}

/// Each wrapped entry's chunk opens with the length of its payload, the
/// `tEXt` type bytes, and the keyword.
#[verifier::rlimit(100)]
pub proof fn lemma_entry_chunks_header(z: Seq<u8>, es: Seq<(int, int, int)>, i: int)
    requires
        0 <= i < es.len(),
        forall|k: int| 0 <= k < es.len() ==> 0 <= (#[trigger] es[k]).0 <= es[k].1 <= z.len(),
        forall|k: int| 0 <= k < es.len() ==> 8 + (#[trigger] es[k]).1 - es[k].0 <= 0xFFFF_FFFF,
    ensures
        crate::bytes::be32_at(entry_chunks(z, es), chunks_len(es.take(i))) == 8 + (es[i].1
            - es[i].0),
        entry_chunks(z, es).subrange(chunks_len(es.take(i)) + 4, chunks_len(es.take(i)) + 8)
            == spec_text_type(),
    decreases i,
{
    let b = entry_chunks(z, es);
    let rest = es.drop_first();
    assert(forall|k: int| 0 <= k < rest.len() ==> #[trigger] rest[k] == es[k + 1]);
    let c0 = entry_chunk(z, es[0]);
    assert(c0.len() == entry_chunk_total(es[0]));
    lemma_entry_chunks_len(z, rest);
    if i == 0 {
        assert(es.take(0) =~= Seq::<(int, int, int)>::empty());
        let pl = spec_keyword() + z.subrange(es[0].0, es[0].1);
        assert(pl.len() == 8 + (es[0].1 - es[0].0));
        lemma_chunk_head(spec_text_type(), pl);
        assert(b.subrange(0, 4) =~= c0.subrange(0, 4));
        lemma_be32_of_subranges(b, c0, 0, 0);
        assert(b.subrange(4, 8) =~= c0.subrange(4, 8));
    } else {
        lemma_entry_chunks_header(z, rest, i - 1);
        assert(es.take(i).drop_first() =~= rest.take(i - 1));
        assert(chunks_len(es.take(i)) == entry_chunk_total(es[0]) + chunks_len(rest.take(i - 1)));
        let off = chunks_len(rest.take(i - 1));
        assert(forall|k: int|
            0 <= k < rest.take(i - 1).len() ==> (#[trigger] rest.take(i - 1)[k]).0 <= rest.take(
                i - 1,
            )[k].1);
        lemma_chunks_len_nonneg(rest.take(i - 1));
        lemma_chunks_len_split(rest, i - 1);
        assert(forall|k: int|
            0 <= k < rest.skip(i - 1).len() ==> (#[trigger] rest.skip(i - 1)[k]).0 <= rest.skip(
                i - 1,
            )[k].1);
        lemma_chunks_len_nonneg(rest.skip(i - 1));
        assert(rest.skip(i - 1)[0] == es[i]);
        assert(rest.skip(i - 1).drop_first() =~= rest.skip(i));
        assert(forall|k: int|
            0 <= k < rest.skip(i).len() ==> (#[trigger] rest.skip(i)[k]).0 <= rest.skip(i)[k].1);
        lemma_chunks_len_nonneg(rest.skip(i));
        assert(chunks_len(rest.skip(i - 1)) == entry_chunk_total(es[i]) + chunks_len(rest.skip(i)));
        assert(off + 16 <= chunks_len(rest));
        assert(b.subrange(c0.len() + off, c0.len() + off + 4) =~= entry_chunks(z, rest).subrange(
            off,
            off + 4,
        ));
        lemma_be32_of_subranges(b, entry_chunks(z, rest), c0.len() + off, off);
        assert(b.subrange(c0.len() + off + 4, c0.len() + off + 8) =~= entry_chunks(
            z,
            rest,
        ).subrange(off + 4, off + 8));
    }
}


/// From the final chunk on, the composite walks as chunks: the wrapped
/// central directory, then the terminal end marker.
#[verifier::rlimit(100)]
pub proof fn lemma_walk_cd_chunk(img: Seq<u8>, z: Seq<u8>)
    requires
        compose_ok(img, z),
    ensures
        crate::png::chunk_walk_ok(spec_composite(img, z), spec_cd_new_offset(img, z) - 16),
{
    let o = spec_composite(img, z);
    let he = spec_header_end(img);
    let iend = spec_find_png_end(img, 0).unwrap();
    let layout = spec_zip_layout(z).unwrap();
    let e = layout.0;
    let cd = layout.1;
    let es = layout.2;
    let cd_new = spec_cd_new_offset(img, z);
    lemma_composite_shape(img, z);
    let patched = spec_patched_archive(img, z);
    let a1 = img.subrange(0, he);
    let b1 = entry_chunks(z, es);
    let c1 = img.subrange(he, iend);
    let payload = spec_keyword() + patched.subrange(cd, e + 22);
    let d1 = crate::chunk::chunk_bytes(spec_text_type(), payload);
    let t1 = crate::png::spec_png_end();
    let pos = cd_new - 16;
    assert(o.len() == pos + 12 + payload.len() + 12);
    lemma_chunk_head(spec_text_type(), payload);
    lemma_concat5_fourth_range(a1, b1, c1, d1, t1, 0, 4);
    lemma_be32_of_subranges(o, d1, pos, 0);
    lemma_concat5_fourth_range(a1, b1, c1, d1, t1, 4, 8);
    assert(o.subrange(pos + 4, pos + 8) == spec_text_type());
    assert(spec_text_type() != crate::png::iend_type()) by {
        assert(spec_text_type()[0] != crate::png::iend_type()[0]);
    }
    let pos2 = pos + 12 + payload.len();
    lemma_concat5_fifth_range(a1, b1, c1, d1, t1, 0, 12);
    assert(t1.subrange(0, 12) =~= t1);
    assert(o.subrange(pos2, pos2 + 12) == crate::png::spec_png_end());
    assert(crate::png::chunk_walk_ok(o, pos2));
}

/// From any chunk boundary of the donor image's copied interior on, the
/// composite walks as chunks through to its end.
#[verifier::rlimit(100)]
pub proof fn lemma_walk_middle(img: Seq<u8>, z: Seq<u8>, q: int)
    requires
        compose_ok(img, z),
        spec_header_end(img) <= q,
        crate::png::chunks_cover(img, q, spec_find_png_end(img, 0).unwrap()),
    ensures
        crate::png::chunk_walk_ok(
            spec_composite(img, z),
            q + chunks_len(spec_zip_layout(z).unwrap().2),
        ),
    decreases spec_find_png_end(img, 0).unwrap() - q,
{
    let o = spec_composite(img, z);
    let he = spec_header_end(img);
    let iend = spec_find_png_end(img, 0).unwrap();
    let layout = spec_zip_layout(z).unwrap();
    let e = layout.0;
    let cd = layout.1;
    let es = layout.2;
    let cd_new = spec_cd_new_offset(img, z);
    lemma_composite_shape(img, z);
    let patched = spec_patched_archive(img, z);
    let a1 = img.subrange(0, he);
    let b1 = entry_chunks(z, es);
    let c1 = img.subrange(he, iend);
    let payload = spec_keyword() + patched.subrange(cd, e + 22);
    let d1 = crate::chunk::chunk_bytes(spec_text_type(), payload);
    let t1 = crate::png::spec_png_end();
    if q == iend {
        lemma_walk_cd_chunk(img, z);
    } else {
        let m = q + chunks_len(es);
        let sz = 12 + crate::bytes::be32_at(img, q);
        lemma_concat5_third_range(a1, b1, c1, d1, t1, q - he, q - he + 4);
        assert(c1.subrange(q - he, q - he + 4) =~= img.subrange(q, q + 4));
        lemma_be32_of_subranges(o, img, m, q);
        lemma_concat5_third_range(a1, b1, c1, d1, t1, q - he + 4, q - he + 8);
        assert(c1.subrange(q - he + 4, q - he + 8) =~= img.subrange(q + 4, q + 8));
        assert(o.subrange(m + 4, m + 8) == img.subrange(q + 4, q + 8));
        lemma_walk_middle(img, z, q + sz);
        assert(crate::png::chunk_walk_ok(o, m));
    }
}

/// From any wrapped entry's chunk on, the composite walks as chunks through
/// to its end.
#[verifier::rlimit(100)]
pub proof fn lemma_walk_entries(img: Seq<u8>, z: Seq<u8>, k: int)
    requires
        compose_ok(img, z),
        crate::png::chunks_cover(
            img,
            spec_header_end(img),
            spec_find_png_end(img, 0).unwrap(),
        ),
        0 <= k <= spec_zip_layout(z).unwrap().2.len(),
    ensures
        crate::png::chunk_walk_ok(
            spec_composite(img, z),
            spec_header_end(img) + chunks_len(spec_zip_layout(z).unwrap().2.take(k)),
        ),
    decreases spec_zip_layout(z).unwrap().2.len() - k,
{
    let o = spec_composite(img, z);
    let he = spec_header_end(img);
    let iend = spec_find_png_end(img, 0).unwrap();
    let layout = spec_zip_layout(z).unwrap();
    let e = layout.0;
    let cd = layout.1;
    let es = layout.2;
    lemma_composite_shape(img, z);
    crate::ziplayout::lemma_parse_cd_bounds(
        z,
        cd,
        e,
        cd,
        crate::bytes::le16_at(z, e + 10) as nat,
    );
    let patched = spec_patched_archive(img, z);
    let a1 = img.subrange(0, he);
    let b1 = entry_chunks(z, es);
    let c1 = img.subrange(he, iend);
    let payload = spec_keyword() + patched.subrange(cd, e + 22);
    let d1 = crate::chunk::chunk_bytes(spec_text_type(), payload);
    let t1 = crate::png::spec_png_end();
    if k == es.len() {
        assert(es.take(k) =~= es);
        lemma_walk_middle(img, z, he);
    } else {
        lemma_walk_entries(img, z, k + 1);
        lemma_chunk_prefix_bound(es, k);
        let off = chunks_len(es.take(k));
        let pos = he + off;
        let szk = es[k].1 - es[k].0;
        lemma_entry_chunks_header(z, es, k);
        lemma_concat5_second_range(a1, b1, c1, d1, t1, off, off + 4);
        lemma_be32_of_subranges(o, b1, pos, off);
        assert(crate::bytes::be32_at(o, pos) == 8 + szk);
        lemma_concat5_second_range(a1, b1, c1, d1, t1, off + 4, off + 8);
        assert(o.subrange(pos + 4, pos + 8) == spec_text_type());
        assert(spec_text_type() != crate::png::iend_type()) by {
            assert(spec_text_type()[0] != crate::png::iend_type()[0]);
        }
        assert(es.take(k + 1) =~= es.take(k).push(es[k]));
        crate::compose::lemma_entry_chunks_snoc(z, es.take(k), es[k]);
        assert(pos + (12 + (8 + szk)) == he + chunks_len(es.take(k + 1)));
        assert(crate::png::chunk_walk_ok(o, pos));
    }
}

/// Law: the composite opens with the image signature and, walked as chunks
/// from there, is a chain of whole chunks that ends in exactly one IEND
/// chunk, the terminal end marker, provided the donor image's own interior
/// is such a chain and its first chunk is not an IEND.
#[verifier::rlimit(100)]
pub proof fn lemma_composite_is_png(img: Seq<u8>, z: Seq<u8>)
    requires
        compose_ok(img, z),
        img.subrange(12, 16) != crate::png::iend_type(),
        crate::png::chunks_cover(
            img,
            spec_header_end(img),
            spec_find_png_end(img, 0).unwrap(),
        ),
    ensures
        spec_composite(img, z).subrange(0, 8) == crate::png::spec_png_signature(),
        crate::png::chunk_walk_ok(spec_composite(img, z), 8),
{
    let o = spec_composite(img, z);
    let he = spec_header_end(img);
    let iend = spec_find_png_end(img, 0).unwrap();
    let layout = spec_zip_layout(z).unwrap();
    let e = layout.0;
    let cd = layout.1;
    let es = layout.2;
    lemma_composite_shape(img, z);
    let patched = spec_patched_archive(img, z);
    let a1 = img.subrange(0, he);
    let b1 = entry_chunks(z, es);
    let c1 = img.subrange(he, iend);
    let payload = spec_keyword() + patched.subrange(cd, e + 22);
    let d1 = crate::chunk::chunk_bytes(spec_text_type(), payload);
    let t1 = crate::png::spec_png_end();
    lemma_concat5_first_range(a1, b1, c1, d1, t1, 0, 8);
    assert(a1.subrange(0, 8) =~= img.subrange(0, 8));
    lemma_concat5_first_range(a1, b1, c1, d1, t1, 8, 12);
    assert(a1.subrange(8, 12) =~= img.subrange(8, 12));
    lemma_be32_of_subranges(o, img, 8, 8);
    lemma_concat5_first_range(a1, b1, c1, d1, t1, 12, 16);
    assert(a1.subrange(12, 16) =~= img.subrange(12, 16));
    assert(o.subrange(12, 16) == img.subrange(12, 16));
    assert(8 + (12 + crate::bytes::be32_at(o, 8)) == he);
    assert(es.take(0) =~= Seq::<(int, int, int)>::empty());
    lemma_walk_entries(img, z, 0);
    assert(crate::png::chunk_walk_ok(o, 8));
}

} // verus!
