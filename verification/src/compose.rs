//! The polyglot composer: wraps each donor-archive entry and the patched
//! central directory in PNG text chunks between the donor image's chunks.
use vstd::prelude::*;

use crate::ZipPngError;
use crate::bytes::{store_le16, store_le32};
use crate::chunk::{chunk_bytes, chunk_size};
use crate::png::{has_png_signature, spec_find_png_end, spec_header_end, spec_png_end};
use crate::ziplayout::{descs_view, has_eocd, spec_parse_cd, spec_zip64_marked, spec_zip_layout, zip_ok};

verus! {

/// The eight keyword bytes, `"Comment"` and a NUL, that open every emitted
/// chunk payload.
pub open spec fn spec_keyword() -> Seq<u8> {
    seq![0x43u8, 0x6Fu8, 0x6Du8, 0x6Du8, 0x65u8, 0x6Eu8, 0x74u8, 0x00u8]
}

/// The four type bytes of a `tEXt` chunk.
pub open spec fn spec_text_type() -> Seq<u8> {
    seq![0x74u8, 0x45u8, 0x58u8, 0x74u8]
}

/// The serialized size of the chunk wrapping one entry: chunk framing, the
/// keyword, and the entry's local header with its data.
pub open spec fn entry_chunk_total(e: (int, int, int)) -> int {
    20 + e.1 - e.0
}

/// The serialized size of the chunks wrapping a run of entries.
pub open spec fn chunks_len(es: Seq<(int, int, int)>) -> int
    decreases es.len(),
{
    if es.len() == 0 {
        0
    } else {
        entry_chunk_total(es[0]) + chunks_len(es.drop_first())
    }
}

/// The chunk wrapping one entry's byte range of the donor archive.
pub open spec fn entry_chunk(z: Seq<u8>, e: (int, int, int)) -> Seq<u8> {
    chunk_bytes(spec_text_type(), spec_keyword() + z.subrange(e.0, e.1))
}

/// The chunks wrapping a run of entries, concatenated.
pub open spec fn entry_chunks(z: Seq<u8>, es: Seq<(int, int, int)>) -> Seq<u8>
    decreases es.len(),
{
    if es.len() == 0 {
        Seq::empty()
    } else {
        entry_chunk(z, es[0]) + entry_chunks(z, es.drop_first())
    }
}

/// The donor archive with each central-directory record's local-header-offset
/// field overwritten by the absolute position its entry's local header will
/// occupy in the composite; `pos` is where the first entry's chunk begins.
pub open spec fn patch_entries(z: Seq<u8>, es: Seq<(int, int, int)>, pos: int) -> Seq<u8>
    decreases es.len(),
{
    if es.len() == 0 {
        z
    } else {
        patch_entries(
            store_le32(z, es[0].2 + 42, pos + 16),
            es.drop_first(),
            pos + entry_chunk_total(es[0]),
        )
    }
}

/// True when the donor image parses: the signature, a first chunk that fits,
/// and an end marker at or after that chunk.
pub open spec fn png_ok(img: Seq<u8>) -> bool {
    &&& has_png_signature(img)
    &&& img.len() >= 20
    &&& spec_header_end(img) <= img.len()
    &&& match spec_find_png_end(img, 0) {
        Some(i) => i >= spec_header_end(img),
        None => false,
    }
}

/// True when both buffers' sizes are representable in 32 bits.
pub open spec fn sizes_ok(img: Seq<u8>, z: Seq<u8>) -> bool {
    img.len() <= 0xFFFF_FFFF && z.len() <= 0xFFFF_FFFF
}

/// The absolute position, in the composite, of the first byte of the central
/// directory inside the final chunk's payload.
pub open spec fn spec_cd_new_offset(img: Seq<u8>, z: Seq<u8>) -> int
    recommends
        png_ok(img),
        zip_ok(z),
{
    let he = spec_header_end(img);
    let iend = spec_find_png_end(img, 0).unwrap();
    let es = spec_zip_layout(z).unwrap().2;
    he + chunks_len(es) + (iend - he) + 16
}

/// The composite's total size.
pub open spec fn spec_composite_len(img: Seq<u8>, z: Seq<u8>) -> int
    recommends
        png_ok(img),
        zip_ok(z),
{
    let layout = spec_zip_layout(z).unwrap();
    let e = layout.0;
    let cd = layout.1;
    spec_cd_new_offset(img, z) - 16 + chunk_size(8 + (e + 22 - cd)) + 12
}

/// True when every patched offset and every chunk length fits its 32-bit
/// field, and the composite fits in one addressable buffer.
pub open spec fn fits(img: Seq<u8>, z: Seq<u8>) -> bool
    recommends
        png_ok(img),
        zip_ok(z),
{
    let layout = spec_zip_layout(z).unwrap();
    let e = layout.0;
    let cd = layout.1;
    let es = layout.2;
    &&& spec_cd_new_offset(img, z) <= 0xFFFF_FFFF
    &&& forall|i: int| 0 <= i < es.len() ==> 8 + (#[trigger] es[i]).1 - es[i].0 <= 0xFFFF_FFFF
    &&& 8 + (e + 22 - cd) <= 0xFFFF_FFFF
    &&& spec_composite_len(img, z) <= usize::MAX
}

/// True when composition succeeds on these buffers.
pub open spec fn compose_ok(img: Seq<u8>, z: Seq<u8>) -> bool {
    sizes_ok(img, z) && png_ok(img) && !spec_zip64_marked(z) && zip_ok(z) && fits(img, z)
}

/// The error composition reports when it refuses these buffers.
pub open spec fn spec_compose_error(img: Seq<u8>, z: Seq<u8>) -> ZipPngError
    recommends
        !compose_ok(img, z),
{
    if !has_png_signature(img) {
        ZipPngError::MalformedInput
    } else if !sizes_ok(img, z) {
        ZipPngError::UnsupportedArchive
    } else if !png_ok(img) || !has_eocd(z) {
        ZipPngError::MalformedInput
    } else if spec_zip64_marked(z) {
        ZipPngError::UnsupportedArchive
    } else if !zip_ok(z) {
        ZipPngError::MalformedInput
    } else {
        ZipPngError::UnsupportedArchive
    }
}

/// The donor archive after all three kinds of patches: each record's
/// local-header offset, the end record's central-directory offset, and its
/// comment length.
pub open spec fn spec_patched_archive(img: Seq<u8>, z: Seq<u8>) -> Seq<u8>
    recommends
        png_ok(img),
        zip_ok(z),
{
    let he = spec_header_end(img);
    let layout = spec_zip_layout(z).unwrap();
    let e = layout.0;
    let es = layout.2;
    store_le16(
        store_le32(patch_entries(z, es, he), e + 16, spec_cd_new_offset(img, z)),
        e + 20,
        12,
    )
}

/// The composite: the donor image's signature and first chunk, one chunk per
/// archive entry, the donor image's remaining chunks, one chunk holding the
/// patched central directory and end record, and the end marker.
pub open spec fn spec_composite(img: Seq<u8>, z: Seq<u8>) -> Seq<u8>
    recommends
        compose_ok(img, z),
{
    let he = spec_header_end(img);
    let iend = spec_find_png_end(img, 0).unwrap();
    let layout = spec_zip_layout(z).unwrap();
    let e = layout.0;
    let cd = layout.1;
    let es = layout.2;
    img.subrange(0, he) + entry_chunks(z, es) + img.subrange(he, iend) + chunk_bytes(
        spec_text_type(),
        spec_keyword() + spec_patched_archive(img, z).subrange(cd, e + 22),
    ) + spec_png_end()
}

/// Appending one entry extends the wrapped-chunk run by that entry's chunk.
pub proof fn lemma_entry_chunks_snoc(z: Seq<u8>, es: Seq<(int, int, int)>, x: (int, int, int))
    ensures
        entry_chunks(z, es.push(x)) == entry_chunks(z, es) + entry_chunk(z, x),
        chunks_len(es.push(x)) == chunks_len(es) + entry_chunk_total(x),
    decreases es.len(),
{
    if es.len() == 0 {
        assert(es.push(x).drop_first() =~= Seq::<(int, int, int)>::empty());
        assert(es.push(x)[0] == x);
        assert(entry_chunks(z, Seq::<(int, int, int)>::empty()) == Seq::<u8>::empty());
        assert(chunks_len(Seq::<(int, int, int)>::empty()) == 0);
        assert(entry_chunks(z, es.push(x)) == entry_chunk(z, x) + entry_chunks(
            z,
            es.push(x).drop_first(),
        ));
        assert(chunks_len(es.push(x)) == entry_chunk_total(x) + chunks_len(
            es.push(x).drop_first(),
        ));
        assert(entry_chunks(z, es.push(x)) =~= entry_chunks(z, es) + entry_chunk(z, x));
    } else {
        assert(es.push(x).drop_first() =~= es.drop_first().push(x));
        assert(es.push(x)[0] == es[0]);
        lemma_entry_chunks_snoc(z, es.drop_first(), x);
        assert(entry_chunks(z, es.push(x)) =~= entry_chunks(z, es) + entry_chunk(z, x));
        assert(chunks_len(es.push(x)) == entry_chunk_total(es[0]) + chunks_len(
            es.drop_first().push(x),
        ));
    }
}

/// A run's serialized size splits at any index.
pub proof fn lemma_chunks_len_split(es: Seq<(int, int, int)>, i: int)
    requires
        0 <= i <= es.len(),
    ensures
        chunks_len(es) == chunks_len(es.take(i)) + chunks_len(es.skip(i)),
    decreases i,
{
    if i == 0 {
        assert(es.take(0) =~= Seq::<(int, int, int)>::empty());
        assert(es.skip(0) =~= es);
    } else {
        lemma_chunks_len_split(es, i - 1);
        assert(es.take(i) =~= es.take(i - 1).push(es[i - 1]));
        lemma_entry_chunks_snoc(Seq::empty(), es.take(i - 1), es[i - 1]);
        assert(es.skip(i - 1).len() == es.len() - i + 1);
        assert(es.skip(i - 1)[0] == es[i - 1]);
        assert(es.skip(i - 1).drop_first() =~= es.skip(i));
        assert(chunks_len(es.skip(i - 1)) == entry_chunk_total(es[i - 1]) + chunks_len(
            es.skip(i),
        ));
    }
}

/// Appends the eight keyword bytes that open every emitted payload.
fn push_keyword(out: &mut Vec<u8>)
    ensures
        final(out)@ == old(out)@ + spec_keyword(),
{
    out.push(0x43);
    out.push(0x6F);
    out.push(0x6D);
    out.push(0x6D);
    out.push(0x65);
    out.push(0x6E);
    out.push(0x74);
    out.push(0x00);
    proof {
        assert(out@ =~= old(out)@ + spec_keyword());
    }
}

/// Serializes one `tEXt` chunk around `payload` and appends it.
fn append_text_chunk(out: &mut Vec<u8>, payload: &[u8]) -> (n: usize)
    requires
        payload@.len() <= 0xFFFF_FFFF,
        old(out)@.len() + chunk_size(payload@.len() as int) <= usize::MAX,
    ensures
        final(out)@ == old(out)@ + chunk_bytes(spec_text_type(), payload@),
        n == chunk_size(payload@.len() as int),
{
    let mut typ: Vec<u8> = Vec::new();
    typ.push(0x74);
    typ.push(0x45);
    typ.push(0x58);
    typ.push(0x74);
    proof {
        assert(typ@ =~= spec_text_type());
    }
    crate::chunk::append_chunk(out, typ.as_slice(), payload)
}

/// A run of well-formed entries has a nonnegative serialized size.
pub proof fn lemma_chunks_len_nonneg(es: Seq<(int, int, int)>)
    requires
        forall|k: int| 0 <= k < es.len() ==> (#[trigger] es[k]).0 <= es[k].1,
    ensures
        chunks_len(es) >= 0,
    decreases es.len(),
{
    if es.len() > 0 {
        assert(forall|k: int|
            0 <= k < es.drop_first().len() ==> (#[trigger] es.drop_first()[k]).0
                == es[k + 1].0 && es.drop_first()[k].1 == es[k + 1].1);
        lemma_chunks_len_nonneg(es.drop_first());
    }
}

/// Embeds the donor ZIP archive `file` into the donor PNG image `img`,
/// returning the composite polyglot bytes. Succeeds exactly when both donors
/// parse and every patched offset fits its 32-bit field; no partial output
/// exists on failure.
#[verifier::rlimit(100)]
pub fn create_archive(img: &[u8], file: &[u8]) -> (r: Result<Vec<u8>, ZipPngError>)
    ensures
        match r {
            Ok(out) => compose_ok(img@, file@) && out@ == spec_composite(img@, file@),
            Err(er) => !compose_ok(img@, file@) && er == spec_compose_error(img@, file@),
        },
{
    if !crate::png::check_png_signature(img) {
        return Err(ZipPngError::MalformedInput);
    }
    if img.len() as u64 > 0xFFFF_FFFF || file.len() as u64 > 0xFFFF_FFFF {
        return Err(ZipPngError::UnsupportedArchive);
    }
    if img.len() < 20 {
        return Err(ZipPngError::MalformedInput);
    }
    let ihdr_len = crate::bytes::read_be32(img, 8);
    let he64: u64 = 20 + ihdr_len as u64;
    if he64 > img.len() as u64 {
        return Err(ZipPngError::MalformedInput);
    }
    let he: usize = he64 as usize;
    let iend: usize = match crate::png::find_iend_loc(img) {
        None => {
            return Err(ZipPngError::MalformedInput);
        },
        Some(i) => i,
    };
    if iend < he {
        return Err(ZipPngError::MalformedInput);
    }
    assert(png_ok(img@));
    let e: usize = match crate::ziplayout::find_eocd(file) {
        None => {
            assert(!zip_ok(file@));
            return Err(ZipPngError::MalformedInput);
        },
        Some(i) => i,
    };
    if file.len() - e < 22 {
        assert(!zip_ok(file@));
        assert(!has_eocd(file@));
        return Err(ZipPngError::MalformedInput);
    }
    let cd32 = crate::bytes::read_le32(file, e + 16);
    let nent: usize = crate::bytes::read_le16(file, e + 10) as usize;
    let locator = e >= 20 && crate::ziplayout::sig_at(file, e - 20, 0x50, 0x4B, 0x06, 0x07);
    if nent == 0xFFFF || cd32 == 0xFFFF_FFFF || locator {
        assert(spec_zip64_marked(file@));
        return Err(ZipPngError::UnsupportedArchive);
    }
    assert(!spec_zip64_marked(file@));
    if cd32 as u64 > e as u64 {
        assert(!zip_ok(file@));
        return Err(ZipPngError::MalformedInput);
    }
    let cd: usize = cd32 as usize;
    let entries = match crate::ziplayout::parse_central_directory(file, cd, e, cd, nent) {
        Err(_) => {
            assert(!zip_ok(file@));
            return Err(ZipPngError::MalformedInput);
        },
        Ok(v) => v,
    };
    let ghost es = descs_view(entries@);
    proof {
        assert(spec_zip_layout(file@) == Some((e as int, cd as int, es)));
        assert(zip_ok(file@));
        crate::ziplayout::lemma_parse_cd_bounds(file@, cd as int, e as int, cd as int, nent as nat);
        assert(es.len() == entries@.len());
    }

    let mut total: u64 = 0;
    let mut i: usize = 0;
    while i < entries.len()
        invariant
            es == descs_view(entries@),
            es.len() == entries@.len() == nent,
            nent < 0x1_0000,
            i <= entries@.len(),
            spec_parse_cd(file@, cd as int, e as int, cd as int, nent as nat) == Some(es),
            total == chunks_len(es.take(i as int)),
            total <= i as u64 * 0x1_0000_0014,
            file@.len() <= 0xFFFF_FFFF,
            png_ok(img@),
            zip_ok(file@),
            sizes_ok(img@, file@),
            spec_zip_layout(file@) == Some((e as int, cd as int, es)),
            forall|k: int| 0 <= k < i ==> 8 + (#[trigger] es[k]).1 - es[k].0 <= 0xFFFF_FFFF,
        decreases entries@.len() - i,
    {
        proof {
            crate::ziplayout::lemma_parse_cd_bounds(
                file@,
                cd as int,
                e as int,
                cd as int,
                nent as nat,
            );
            assert(es[i as int] == crate::ziplayout::desc_view(entries@[i as int]));
        }
        let d = entries[i];
        let sz: u64 = (d.data_end - d.local_header_start) as u64;
        if sz + 8 > 0xFFFF_FFFF {
            assert(8 + es[i as int].1 - es[i as int].0 > 0xFFFF_FFFF);
            assert(!fits(img@, file@));
            return Err(ZipPngError::UnsupportedArchive);
        }
        proof {
            assert(es.take(i + 1) =~= es.take(i as int).push(es[i as int]));
            lemma_entry_chunks_snoc(file@, es.take(i as int), es[i as int]);
        }
        total = total + 20 + sz;
        i = i + 1;
    }
    proof {
        assert(es.take(es.len() as int) =~= es);
        assert(total == chunks_len(es));
    }
    let body64: u64 = he as u64 + total + (iend - he) as u64;
    let cd_new64: u64 = body64 + 16;
    proof {
        assert(cd_new64 == spec_cd_new_offset(img@, file@));
    }
    if cd_new64 > 0xFFFF_FFFF {
        assert(!fits(img@, file@));
        return Err(ZipPngError::UnsupportedArchive);
    }
    let cd_payload64: u64 = (e - cd) as u64 + 30;
    if cd_payload64 > 0xFFFF_FFFF {
        assert(8 + (e as int + 22 - cd as int) > 0xFFFF_FFFF);
        assert(!fits(img@, file@));
        return Err(ZipPngError::UnsupportedArchive);
    }
    let comp_len64: u64 = body64 + 24 + cd_payload64;
    proof {
        assert(comp_len64 == spec_composite_len(img@, file@));
    }
    if comp_len64 > usize::MAX as u64 {
        assert(!fits(img@, file@));
        return Err(ZipPngError::UnsupportedArchive);
    }
    assert(fits(img@, file@));
    assert(compose_ok(img@, file@));

    let mut out: Vec<u8> = Vec::new();
    crate::bytes::append_range(&mut out, img, 0, he);
    let mut working: Vec<u8> = vstd::slice::slice_to_vec(file);
    let mut i: usize = 0;
    while i < entries.len()
        invariant
            es == descs_view(entries@),
            es.len() == entries@.len() == nent,
            nent < 0x1_0000,
            i <= entries@.len(),
            spec_parse_cd(file@, cd as int, e as int, cd as int, nent as nat) == Some(es),
            compose_ok(img@, file@),
            spec_zip_layout(file@) == Some((e as int, cd as int, es)),
            he == spec_header_end(img@),
            spec_find_png_end(img@, 0) == Some(iend as int),
            he <= iend <= img@.len(),
            e + 22 <= file@.len(),
            cd <= e,
            file@.len() <= 0xFFFF_FFFF,
            img@.len() <= 0xFFFF_FFFF,
            comp_len64 == spec_composite_len(img@, file@),
            cd_new64 == spec_cd_new_offset(img@, file@),
            cd_new64 <= 0xFFFF_FFFF,
            comp_len64 <= usize::MAX,
            out@ == img@.subrange(0, he as int) + entry_chunks(file@, es.take(i as int)),
            out@.len() == he + chunks_len(es.take(i as int)),
            working@.len() == file@.len(),
            patch_entries(file@, es, he as int) == patch_entries(
                working@,
                es.skip(i as int),
                he + chunks_len(es.take(i as int)),
            ),
        decreases entries@.len() - i,
    {
        proof {
            crate::ziplayout::lemma_parse_cd_bounds(
                file@,
                cd as int,
                e as int,
                cd as int,
                nent as nat,
            );
            assert(es[i as int] == crate::ziplayout::desc_view(entries@[i as int]));
            lemma_chunks_len_split(es, i as int);
            lemma_chunks_len_split(es, i + 1);
            assert(forall|k: int|
                0 <= k < es.skip(i as int).len() ==> (#[trigger] es.skip(i as int)[k]).0
                    <= es.skip(i as int)[k].1);
            lemma_chunks_len_nonneg(es.skip(i as int));
            assert(forall|k: int|
                0 <= k < es.skip(i + 1).len() ==> (#[trigger] es.skip(i + 1)[k]).0 <= es.skip(
                    i + 1,
                )[k].1);
            lemma_chunks_len_nonneg(es.skip(i + 1));
            assert(es.take(i + 1) =~= es.take(i as int).push(es[i as int]));
            lemma_entry_chunks_snoc(file@, es.take(i as int), es[i as int]);
        }
        let d = entries[i];
        let pos = out.len();
        let mut payload: Vec<u8> = Vec::new();
        push_keyword(&mut payload);
        crate::bytes::append_range(&mut payload, file, d.local_header_start, d.data_end);
        proof {
            assert(payload@ =~= spec_keyword() + file@.subrange(
                es[i as int].0,
                es[i as int].1,
            ));
        }
        let ghost out_before = out@;
        append_text_chunk(&mut out, payload.as_slice());
        let ghost working_before = working@;
        crate::bytes::write_le32(&mut working, d.central_record_start + 42, (pos + 16) as u32);
        proof {
            assert(out@ =~= img@.subrange(0, he as int) + entry_chunks(
                file@,
                es.take(i + 1),
            ));
            assert(es.skip(i as int)[0] == es[i as int]);
            assert(es.skip(i as int).drop_first() =~= es.skip(i + 1));
            assert(((pos + 16) as u32) as int == pos + 16);
            assert(working@ == store_le32(
                working_before,
                es[i as int].2 + 42,
                pos + 16,
            ));
            assert(patch_entries(
                working_before,
                es.skip(i as int),
                he + chunks_len(es.take(i as int)),
            ) == patch_entries(
                working@,
                es.skip(i + 1),
                he + chunks_len(es.take(i + 1)),
            ));
        }
        i = i + 1;
    }
    proof {
        assert(es.take(es.len() as int) =~= es);
        assert(es.skip(es.len() as int) =~= Seq::<(int, int, int)>::empty());
        assert(patch_entries(file@, es, he as int) == working@);
    }
    let ghost out_body = out@;
    crate::bytes::append_range(&mut out, img, he, iend);
    let cd_new: u32 = (out.len() + 16) as u32;
    proof {
        assert(out.len() + 16 == cd_new64);
        assert(cd_new as int == spec_cd_new_offset(img@, file@));
    }
    let ghost patched0 = working@;
    crate::bytes::write_le32(&mut working, e + 16, cd_new);
    crate::bytes::write_le16(&mut working, e + 20, 12);
    proof {
        assert(working@ == store_le16(
            store_le32(patch_entries(file@, es, he as int), e + 16, spec_cd_new_offset(img@, file@)),
            e + 20,
            12,
        ));
        assert(working@ == spec_patched_archive(img@, file@));
    }
    let mut payload: Vec<u8> = Vec::new();
    push_keyword(&mut payload);
    crate::bytes::append_range(&mut payload, working.as_slice(), cd, e + 22);
    proof {
        assert(payload@ =~= spec_keyword() + working@.subrange(cd as int, e + 22));
    }
    append_text_chunk(&mut out, payload.as_slice());
    let ghost out_with_cd = out@;
    out.push(0);
    out.push(0);
    out.push(0);
    out.push(0);
    out.push(0x49);
    out.push(0x45);
    out.push(0x4E);
    out.push(0x44);
    out.push(0xAE);
    out.push(0x42);
    out.push(0x60);
    out.push(0x82);
    proof {
        assert(out@ =~= out_with_cd + spec_png_end());
        assert(out@ =~= spec_composite(img@, file@));
    }
    Ok(out)
}

} // verus!
