//! The ZIP layout reader: locating the end-of-central-directory record and
//! walking the central directory for each entry's byte ranges.
use vstd::prelude::*;

use crate::ZipPngError;
use crate::bytes::{le16_at, le32_at, read_le16, read_le32};

verus! {

/// The four-byte signature of the end-of-central-directory record.
pub open spec fn eocd_sig() -> Seq<u8> {
    seq![0x50u8, 0x4Bu8, 0x05u8, 0x06u8]
}

/// The four-byte signature of a central-directory record.
pub open spec fn cd_sig() -> Seq<u8> {
    seq![0x50u8, 0x4Bu8, 0x01u8, 0x02u8]
}

/// The four-byte signature of a local file header.
pub open spec fn local_sig() -> Seq<u8> {
    seq![0x50u8, 0x4Bu8, 0x03u8, 0x04u8]
}

/// True when the end-of-central-directory signature stands at `i`.
pub open spec fn eocd_at(z: Seq<u8>, i: int) -> bool {
    0 <= i && i + 4 <= z.len() && z.subrange(i, i + 4) == eocd_sig()
}

/// The position of the last end-of-central-directory signature at or before
/// `i`, if any.
pub open spec fn spec_find_eocd_from(z: Seq<u8>, i: int) -> Option<int>
    decreases i + 1,
{
    if i < 0 {
        None
    } else if eocd_at(z, i) {
        Some(i)
    } else {
        spec_find_eocd_from(z, i - 1)
    }
}

/// The position of the last end-of-central-directory signature in `z`.
pub open spec fn spec_find_eocd(z: Seq<u8>) -> Option<int> {
    spec_find_eocd_from(z, z.len() - 4)
}

/// True when an end-of-central-directory record stands whole in the buffer.
pub open spec fn has_eocd(z: Seq<u8>) -> bool {
    match spec_find_eocd(z) {
        Some(e) => e + 22 <= z.len(),
        None => false,
    }
}

/// The four-byte signature of the ZIP64 end-of-central-directory locator.
pub open spec fn eocd64_locator_sig() -> Seq<u8> {
    seq![0x50u8, 0x4Bu8, 0x06u8, 0x07u8]
}

/// True when the end record carries a ZIP64 mark: a sentinel entry count or
/// central-directory offset, or the ZIP64 locator right before it. Such an
/// archive addresses beyond 32-bit fields and is refused as unsupported.
pub open spec fn spec_zip64_marked(z: Seq<u8>) -> bool {
    match spec_find_eocd(z) {
        Some(e) => e + 22 <= z.len() && (le16_at(z, e + 10) == 0xFFFF || le32_at(z, e + 16)
            == 0xFFFF_FFFF || (e >= 20 && z.subrange(e - 20, e - 16) == eocd64_locator_sig())),
        None => false,
    }
}

/// One entry's places inside the donor archive: where its local header
/// starts, where its compressed data ends, and where its central-directory
/// record starts.
#[derive(Clone, Copy, Debug)]
pub struct ZipEntryDescriptor {
    pub local_header_start: usize,
    pub data_end: usize,
    pub central_record_start: usize,
}

/// The mathematical shape of one entry: local header start, data end, and
/// central-directory record start.
pub open spec fn desc_view(d: ZipEntryDescriptor) -> (int, int, int) {
    (d.local_header_start as int, d.data_end as int, d.central_record_start as int)
}

/// The mathematical shape of a run of entries.
pub open spec fn descs_view(ds: Seq<ZipEntryDescriptor>) -> Seq<(int, int, int)> {
    ds.map_values(|d: ZipEntryDescriptor| desc_view(d))
}

/// Parses `n` central-directory records of `z` starting at `pos`. The
/// records must fill `[pos, end)` exactly; each referenced local header and
/// its data must lie inside `[0, limit)`. Yields per record the entry's
/// local header start, data end, and record start.
pub open spec fn spec_parse_cd(z: Seq<u8>, pos: int, end: int, limit: int, n: nat) -> Option<
    Seq<(int, int, int)>,
>
    decreases n,
{
    if n == 0 {
        if pos == end {
            Some(Seq::empty())
        } else {
            None
        }
    } else if !(0 <= pos && pos + 46 <= end && end <= z.len() && z.subrange(pos, pos + 4)
        == cd_sig()) {
        None
    } else {
        let rec_end = pos + 46 + le16_at(z, pos + 28) + le16_at(z, pos + 30) + le16_at(
            z,
            pos + 32,
        );
        let lho = le32_at(z, pos + 42);
        if rec_end > end {
            None
        } else if !(lho + 30 <= limit && limit <= z.len() && z.subrange(lho, lho + 4)
            == local_sig()) {
            None
        } else {
            let data_end = lho + 30 + le16_at(z, lho + 26) + le16_at(z, lho + 28) + le32_at(
                z,
                pos + 20,
            );
            if data_end > limit {
                None
            } else {
                match spec_parse_cd(z, rec_end, end, limit, (n - 1) as nat) {
                    None => None,
                    Some(rest) => Some(seq![(lho, data_end, pos)] + rest),
                }
            }
        }
    }
}

/// The whole donor layout: the end-of-central-directory position, the start
/// of the central directory, and the entries, if the archive parses.
pub open spec fn spec_zip_layout(z: Seq<u8>) -> Option<(int, int, Seq<(int, int, int)>)> {
    match spec_find_eocd(z) {
        None => None,
        Some(e) => {
            if e + 22 <= z.len() {
                let cd = le32_at(z, e + 16);
                let n = le16_at(z, e + 10);
                if cd <= e {
                    match spec_parse_cd(z, cd, e, cd, n as nat) {
                        None => None,
                        Some(es) => Some((e, cd, es)),
                    }
                } else {
                    None
                }
            } else {
                None
            }
        },
    }
}

/// True when the donor archive's layout parses.
pub open spec fn zip_ok(z: Seq<u8>) -> bool {
    spec_zip_layout(z) is Some
}

/// Every parsed run of records is as long as asked, each entry's data range
/// is well-formed and lies below `limit`, each record lies inside
/// `[pos, end)`, and record starts increase by at least the fixed record
/// size.
pub proof fn lemma_parse_cd_bounds(z: Seq<u8>, pos: int, end: int, limit: int, n: nat)
    requires
        0 <= pos,
        spec_parse_cd(z, pos, end, limit, n) is Some,
    ensures
        ({
            let es = spec_parse_cd(z, pos, end, limit, n).unwrap();
            &&& es.len() == n
            &&& forall|i: int|
                0 <= i < n ==> {
                    let e = #[trigger] es[i];
                    &&& 0 <= e.0
                    &&& e.0 + 30 <= e.1
                    &&& e.1 <= limit
                    &&& pos <= e.2
                    &&& e.2 + 46 <= end
                }
            &&& forall|i: int, j: int| 0 <= i < j < n ==> #[trigger] es[i].2 + 46 <= #[trigger] es[j].2
        }),
    decreases n,
{
    if n == 0 {
    } else {
        let es = spec_parse_cd(z, pos, end, limit, n).unwrap();
        let rec_end = pos + 46 + le16_at(z, pos + 28) + le16_at(z, pos + 30) + le16_at(
            z,
            pos + 32,
        );
        let rest = spec_parse_cd(z, rec_end, end, limit, (n - 1) as nat).unwrap();
        lemma_parse_cd_bounds(z, rec_end, end, limit, (n - 1) as nat);
        assert(es == seq![(le32_at(z, pos + 42), es[0].1, pos)] + rest);
        assert(forall|i: int| 1 <= i < n ==> #[trigger] es[i] == rest[i - 1]);
    }
}

/// Tests whether the four bytes `s0 s1 s2 s3` stand at `i`.
pub(crate) fn sig_at(b: &[u8], i: usize, s0: u8, s1: u8, s2: u8, s3: u8) -> (r: bool)
    requires
        i + 4 <= b@.len(),
    ensures
        r == (b@.subrange(i as int, i + 4) == seq![s0, s1, s2, s3]),
{
    let ok = b[i] == s0 && b[i + 1] == s1 && b[i + 2] == s2 && b[i + 3] == s3;
    proof {
        let s = b@.subrange(i as int, i + 4);
        if ok {
            assert(s =~= seq![s0, s1, s2, s3]);
        } else {
            if s == seq![s0, s1, s2, s3] {
                assert(b@[i + 0] == s[0] && b@[i + 1] == s[1] && b@[i + 2] == s[2] && b@[i + 3]
                    == s[3]);
            }
        }
    }
    ok
}

/// Scans backward from the end of the buffer for the end-of-central-directory
/// signature.
pub fn find_eocd(z: &[u8]) -> (r: Option<usize>)
    ensures
        match r {
            Some(i) => spec_find_eocd(z@) == Some(i as int) && i + 4 <= z@.len(),
            None => spec_find_eocd(z@) is None,
        },
{
    if z.len() < 4 {
        return None;
    }
    let mut i: usize = z.len() - 4;
    loop
        invariant
            i <= z@.len() - 4,
            z@.len() >= 4,
            spec_find_eocd(z@) == spec_find_eocd_from(z@, i as int),
        decreases i,
    {
        if sig_at(z, i, 0x50, 0x4B, 0x05, 0x06) {
            return Some(i);
        }
        if i == 0 {
            return None;
        }
        i = i - 1;
    }
}

/// Walks `n` central-directory records that must fill `[cd, end)` exactly,
/// yielding each entry's descriptor, exactly as `spec_parse_cd` reads them.
pub fn parse_central_directory(z: &[u8], cd: usize, end: usize, limit: usize, n: usize) -> (r:
    Result<Vec<ZipEntryDescriptor>, ZipPngError>)
    requires
        z@.len() <= 0xFFFF_FFFF,
        cd <= end,
        end <= z@.len(),
        limit <= z@.len(),
    ensures
        match r {
            Ok(v) => spec_parse_cd(z@, cd as int, end as int, limit as int, n as nat) == Some(
                descs_view(v@),
            ),
            Err(e) => e == ZipPngError::MalformedInput && spec_parse_cd(
                z@,
                cd as int,
                end as int,
                limit as int,
                n as nat,
            ) is None,
        },
{
    let mut out: Vec<ZipEntryDescriptor> = Vec::new();
    let mut pos: usize = cd;
    let mut i: usize = 0;
    while i < n
        invariant
            i <= n,
            pos <= end,
            end <= z@.len(),
            limit <= z@.len(),
            z@.len() <= 0xFFFF_FFFF,
            spec_parse_cd(z@, cd as int, end as int, limit as int, n as nat) == (match spec_parse_cd(
                z@,
                pos as int,
                end as int,
                limit as int,
                (n - i) as nat,
            ) {
                None => None::<Seq<(int, int, int)>>,
                Some(rest) => Some(descs_view(out@) + rest),
            }),
        decreases n - i,
    {
        let ghost rem: nat = (n - i) as nat;
        if end - pos < 46 || !sig_at(z, pos, 0x50, 0x4B, 0x01, 0x02) {
            proof {
                assert(spec_parse_cd(z@, pos as int, end as int, limit as int, rem) is None);
            }
            return Err(ZipPngError::MalformedInput);
        }
        let name_len = read_le16(z, pos + 28) as u64;
        let extra_len = read_le16(z, pos + 30) as u64;
        let comment_len = read_le16(z, pos + 32) as u64;
        let lho64 = read_le32(z, pos + 42) as u64;
        if name_len + extra_len + comment_len > (end - pos - 46) as u64 {
            return Err(ZipPngError::MalformedInput);
        }
        let rec_end: usize = pos + 46 + (name_len + extra_len + comment_len) as usize;
        if limit < 30 || lho64 > (limit - 30) as u64 {
            return Err(ZipPngError::MalformedInput);
        }
        let lho: usize = lho64 as usize;
        if !sig_at(z, lho, 0x50, 0x4B, 0x03, 0x04) {
            return Err(ZipPngError::MalformedInput);
        }
        let local_name_len = read_le16(z, lho + 26) as u64;
        let local_extra_len = read_le16(z, lho + 28) as u64;
        let compressed_size = read_le32(z, pos + 20) as u64;
        if 30 + local_name_len + local_extra_len + compressed_size > (limit - lho) as u64 {
            return Err(ZipPngError::MalformedInput);
        }
        let data_end: usize = lho + (30 + local_name_len + local_extra_len
            + compressed_size) as usize;
        let d = ZipEntryDescriptor {
            local_header_start: lho,
            data_end: data_end,
            central_record_start: pos,
        };
        proof {
            let stepped = spec_parse_cd(z@, rec_end as int, end as int, limit as int, (rem
                - 1) as nat);
            assert(spec_parse_cd(z@, pos as int, end as int, limit as int, rem) == (match stepped {
                None => None::<Seq<(int, int, int)>>,
                Some(rest) => Some(seq![desc_view(d)] + rest),
            }));
            assert(descs_view(out@.push(d)) =~= descs_view(out@) + seq![desc_view(d)]);
            if stepped is Some {
                assert(descs_view(out@.push(d)) + stepped.unwrap() =~= descs_view(out@) + (
                seq![desc_view(d)] + stepped.unwrap()));
            }
        }
        out.push(d);
        pos = rec_end;
        i = i + 1;
    }
    if pos != end {
        proof {
            assert(spec_parse_cd(z@, pos as int, end as int, limit as int, 0) is None);
        }
        return Err(ZipPngError::MalformedInput);
    }
    proof {
        assert(spec_parse_cd(z@, pos as int, end as int, limit as int, 0) == Some(
            Seq::<(int, int, int)>::empty(),
        ));
        assert(descs_view(out@) + Seq::<(int, int, int)>::empty() =~= descs_view(out@));
    }
    Ok(out)
}

} // verus!
