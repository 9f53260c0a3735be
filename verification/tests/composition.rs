use zip_in_png::archive::{create_archive_from_files, unzip_archive, ArchiveBuilder};
use zip_in_png::compose::create_archive;
use zip_in_png::ZipPngError;

/// A minimal image: signature, one IHDR chunk describing a 1x1 pixel, and
/// the end marker. The IHDR CRC bytes are arbitrary; composition copies the
/// first chunk verbatim.
fn tiny_png() -> Vec<u8> {
    let mut img = vec![0x89u8, 0x50, 0x4E, 0x47, 0x0D, 0x0A, 0x1A, 0x0A];
    img.extend_from_slice(&13u32.to_be_bytes());
    img.extend_from_slice(b"IHDR");
    img.extend_from_slice(&[0, 0, 0, 1, 0, 0, 0, 1, 8, 0, 0, 0, 0]);
    img.extend_from_slice(&[0xAA, 0xBB, 0xCC, 0xDD]);
    img.extend_from_slice(&[0, 0, 0, 0, 0x49, 0x45, 0x4E, 0x44, 0xAE, 0x42, 0x60, 0x82]);
    img
}

fn donor_zip(files: &[(&str, &[u8])]) -> Vec<u8> {
    let mut b = ArchiveBuilder::new();
    for (name, data) in files {
        b.add_file(name, data).unwrap();
    }
    b.finish().unwrap()
}

fn find_eocd_backward(b: &[u8]) -> usize {
    let mut i: usize = b.len() - 4;
    loop {
        if b[i..i + 4] == [0x50, 0x4B, 0x05, 0x06] {
            return i;
        }
        assert!(i > 0, "no end-of-central-directory record");
        i -= 1;
    }
}

fn le32(b: &[u8], off: usize) -> u32 {
    u32::from_le_bytes([b[off], b[off + 1], b[off + 2], b[off + 3]])
}

fn le16(b: &[u8], off: usize) -> u16 {
    u16::from_le_bytes([b[off], b[off + 1]])
}

fn crc32_reference(data: &[u8]) -> u32 {
    let mut crc: u32 = 0xFFFF_FFFF;
    for &byte in data {
        crc ^= byte as u32;
        for _ in 0..8 {
            if crc & 1 != 0 {
                crc = (crc >> 1) ^ 0xEDB8_8320;
            } else {
                crc >>= 1;
            }
        }
    }
    !crc
}

#[test]
fn roundtrip_one_entry() {
    let zip = donor_zip(&[("a.txt", b"hello")]);
    let img = tiny_png();
    let out = create_archive(&img, &zip).unwrap();
    let entries = unzip_archive(&out).unwrap();
    assert_eq!(entries.len(), 1);
    assert_eq!(entries[0].0, "a.txt");
    assert_eq!(entries[0].1, b"hello");
}

#[test]
fn roundtrip_matches_plain_extraction() {
    let zip = donor_zip(&[("x.bin", &[0u8; 300]), ("y/z.txt", b"nested"), ("empty", b"")]);
    let img = tiny_png();
    let direct = unzip_archive(&zip).unwrap();
    let out = create_archive(&img, &zip).unwrap();
    let embedded = unzip_archive(&out).unwrap();
    assert_eq!(direct, embedded);
}

#[test]
fn roundtrip_zero_entries() {
    let zip = donor_zip(&[]);
    assert_eq!(zip.len(), 22);
    let img = tiny_png();
    let out = create_archive(&img, &zip).unwrap();
    let embedded = unzip_archive(&out).unwrap();
    assert!(embedded.is_empty());
}

#[test]
fn roundtrip_many_entries() {
    let files: Vec<(String, Vec<u8>)> = (0..20)
        .map(|i| (format!("f{}.dat", i), vec![i as u8; i * 7]))
        .collect();
    let refs: Vec<(&str, &[u8])> = files.iter().map(|(n, d)| (n.as_str(), d.as_slice())).collect();
    let zip = donor_zip(&refs);
    let out = create_archive(&tiny_png(), &zip).unwrap();
    let embedded = unzip_archive(&out).unwrap();
    assert_eq!(embedded, files);
}

#[test]
fn composite_size_formula() {
    let zip = donor_zip(&[("a.txt", b"hello")]);
    let img = tiny_png();
    let out = create_archive(&img, &zip).unwrap();
    let eocd = find_eocd_backward(&zip);
    let cd = le32(&zip, eocd + 16) as usize;
    let entry_bytes = cd;
    let cd_and_eocd = eocd + 22 - cd;
    let expected =
        (img.len() - 12) + (4 + 4 + 8 + entry_bytes + 4) + (4 + 4 + 8 + cd_and_eocd + 4) + 12;
    assert_eq!(out.len(), expected);
}

#[test]
fn comment_length_field_is_twelve() {
    for comment in [&b""[..], &b"donor trailing comment of some length"[..]] {
        let mut zip = donor_zip(&[("a.txt", b"hello")]);
        let eocd = find_eocd_backward(&zip);
        zip[eocd + 20] = comment.len() as u8;
        zip[eocd + 21] = 0;
        zip.extend_from_slice(comment);
        let out = create_archive(&tiny_png(), &zip).unwrap();
        let eocd_out = find_eocd_backward(&out);
        assert_eq!(le16(&out, eocd_out + 20), 12);
    }
}

#[test]
fn patched_offsets_point_at_original_entries() {
    let zip = donor_zip(&[("a.txt", b"hello"), ("b.txt", b"world!")]);
    let out = create_archive(&tiny_png(), &zip).unwrap();
    let eocd_out = find_eocd_backward(&out);
    let cd_new = le32(&out, eocd_out + 16) as usize;
    assert_eq!(&out[cd_new..cd_new + 4], &[0x50, 0x4B, 0x01, 0x02]);
    let mut rec: usize = cd_new;
    let n = le16(&out, eocd_out + 10);
    let mut donor_pos: usize = 0;
    for _ in 0..n {
        let name_len = le16(&out, rec + 28) as usize;
        let extra_len = le16(&out, rec + 30) as usize;
        let comment_len = le16(&out, rec + 32) as usize;
        let comp_size = le32(&out, rec + 20) as usize;
        let noff = le32(&out, rec + 42) as usize;
        assert_eq!(&out[noff..noff + 4], &[0x50, 0x4B, 0x03, 0x04]);
        let local_name = le16(&out, noff + 26) as usize;
        let local_extra = le16(&out, noff + 28) as usize;
        let entry_size = 30 + local_name + local_extra + comp_size;
        assert_eq!(&out[noff..noff + entry_size], &zip[donor_pos..donor_pos + entry_size]);
        donor_pos += entry_size;
        rec += 46 + name_len + extra_len + comment_len;
    }
}

#[test]
fn composite_walks_as_png_chunks() {
    let zip = donor_zip(&[("a.txt", b"hello")]);
    let img = tiny_png();
    let out = create_archive(&img, &zip).unwrap();
    assert_eq!(&out[0..8], &img[0..8]);
    let mut pos: usize = 8;
    let mut iend_count: usize = 0;
    while pos < out.len() {
        let len = u32::from_be_bytes([out[pos], out[pos + 1], out[pos + 2], out[pos + 3]]) as usize;
        let typ = &out[pos + 4..pos + 8];
        if typ == b"IEND" {
            iend_count += 1;
            assert_eq!(pos + 12, out.len(), "IEND must be terminal");
        }
        pos += 12 + len;
    }
    assert_eq!(pos, out.len());
    assert_eq!(iend_count, 1);
}

#[test]
fn chunk_crc_matches_reference_crc32() {
    let zip = donor_zip(&[("a.txt", b"hello")]);
    let img = tiny_png();
    let out = create_archive(&img, &zip).unwrap();
    let first_chunk: usize = 8 + 12 + 13;
    let len =
        u32::from_be_bytes([out[first_chunk], out[first_chunk + 1], out[first_chunk + 2], out[first_chunk + 3]])
            as usize;
    let covered = &out[first_chunk + 4..first_chunk + 8 + len];
    assert_eq!(&covered[0..4], b"tEXt");
    assert_eq!(&covered[4..12], b"Comment\0");
    let stored = u32::from_be_bytes([
        out[first_chunk + 8 + len],
        out[first_chunk + 9 + len],
        out[first_chunk + 10 + len],
        out[first_chunk + 11 + len],
    ]);
    assert_eq!(stored, crc32_reference(covered));
}

#[test]
fn malformed_png_signature_is_rejected() {
    let zip = donor_zip(&[("a.txt", b"hello")]);
    let mut img = tiny_png();
    img[0] = 0x88;
    let r = create_archive(&img, &zip);
    assert_eq!(r.unwrap_err(), ZipPngError::MalformedInput);
}

#[test]
fn truncated_png_is_rejected() {
    let zip = donor_zip(&[("a.txt", b"hello")]);
    let img = vec![0x89u8, 0x50, 0x4E, 0x47, 0x0D, 0x0A, 0x1A, 0x0A, 0, 0];
    assert_eq!(create_archive(&img, &zip).unwrap_err(), ZipPngError::MalformedInput);
}

#[test]
fn archive_without_end_record_is_rejected() {
    let img = tiny_png();
    let junk = vec![1u8; 64];
    assert_eq!(create_archive(&img, &junk).unwrap_err(), ZipPngError::MalformedInput);
}

#[test]
fn png_without_end_marker_is_rejected() {
    let zip = donor_zip(&[("a.txt", b"hello")]);
    let img = tiny_png();
    let headless = &img[..img.len() - 12];
    assert_eq!(create_archive(headless, &zip).unwrap_err(), ZipPngError::MalformedInput);
}

#[test]
fn create_archive_from_files_matches_two_step_path() {
    let img = tiny_png();
    let files = vec![
        ("a.txt".to_string(), b"hello".to_vec()),
        ("empty".to_string(), Vec::new()),
    ];
    let out = create_archive_from_files(&img, &files).unwrap();
    let embedded = unzip_archive(&out).unwrap();
    assert_eq!(embedded, files);
}

#[test]
fn unzip_rejects_garbage() {
    assert!(unzip_archive(&[0u8; 10]).is_err());
}

#[test]
fn zip64_sentinel_count_is_unsupported() {
    let mut zip = donor_zip(&[("a.txt", b"hello")]);
    let eocd = find_eocd_backward(&zip);
    zip[eocd + 10] = 0xFF;
    zip[eocd + 11] = 0xFF;
    let r = create_archive(&tiny_png(), &zip);
    assert_eq!(r.unwrap_err(), ZipPngError::UnsupportedArchive);
}

#[test]
fn zip64_sentinel_offset_is_unsupported() {
    let mut zip = donor_zip(&[("a.txt", b"hello")]);
    let eocd = find_eocd_backward(&zip);
    for k in 0..4 {
        zip[eocd + 16 + k] = 0xFF;
    }
    let r = create_archive(&tiny_png(), &zip);
    assert_eq!(r.unwrap_err(), ZipPngError::UnsupportedArchive);
}

#[test]
fn zip64_locator_is_unsupported() {
    let zip = donor_zip(&[("a.txt", b"hello")]);
    let eocd = find_eocd_backward(&zip);
    let mut with_locator = zip[..eocd].to_vec();
    with_locator.extend_from_slice(&[0x50, 0x4B, 0x06, 0x07]);
    with_locator.extend_from_slice(&[0u8; 16]);
    with_locator.extend_from_slice(&zip[eocd..]);
    let r = create_archive(&tiny_png(), &with_locator);
    assert_eq!(r.unwrap_err(), ZipPngError::UnsupportedArchive);
}

#[test]
fn leftover_bytes_before_end_record_are_malformed() {
    let zip = donor_zip(&[("a.txt", b"hello")]);
    let eocd = find_eocd_backward(&zip);
    let mut with_gap = zip[..eocd].to_vec();
    with_gap.extend_from_slice(&[1, 2, 3, 4]);
    with_gap.extend_from_slice(&zip[eocd..]);
    let r = create_archive(&tiny_png(), &with_gap);
    assert_eq!(r.unwrap_err(), ZipPngError::MalformedInput);
}

#[test]
fn duplicate_entry_name_is_refused_by_builder() {
    let mut b = ArchiveBuilder::new();
    b.add_file("a.txt", b"one").unwrap();
    let r = b.add_file("a.txt", b"two");
    assert_eq!(r.unwrap_err(), ZipPngError::IOFailure);
}

#[test]
fn corrupt_entry_data_fails_extraction() {
    let mut zip = donor_zip(&[("a.txt", b"hello")]);
    let eocd = find_eocd_backward(&zip);
    let cd = le32(&zip, eocd + 16) as usize;
    let data_end = cd;
    zip[data_end - 1] ^= 0xFF;
    assert!(unzip_archive(&zip).is_err());
}
