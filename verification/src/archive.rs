//! Listing a plain archive's entries and serializing a fresh archive, through
//! the zip crate.
use vstd::prelude::*;

use crate::ZipPngError;
use crate::compose::{compose_ok, spec_compose_error, spec_composite};

verus! {

/// std's in-memory reader, the seekable buffer the zip crate reads from.
#[verifier::external_type_specification]
#[verifier::external_body]
#[verifier::reject_recursive_types(T)]
pub struct ExCursor<T>(std::io::Cursor<T>);

/// The zip crate's in-memory archive reader.
#[verifier::external_type_specification]
#[verifier::external_body]
#[verifier::reject_recursive_types(R)]
pub struct ExZipArchive<R>(zip::read::ZipArchive<R>);

/// The entries an opened archive lists, in central-directory order: each
/// entry's name and the bytes its data decompresses to.
pub uninterp spec fn archive_entries(a: zip::read::ZipArchive<std::io::Cursor<Vec<u8>>>) -> Seq<
    (Seq<char>, Seq<u8>),
>;

/// True when entry `i` of the opened archive reads back in full: its
/// compression method is supported, its data decodes, and its checksum
/// passes; a function of the archive value and the index alone.
pub uninterp spec fn entry_readable(
    a: zip::read::ZipArchive<std::io::Cursor<Vec<u8>>>,
    i: int,
) -> bool;

/// The entries a byte buffer fully extracts to when read as a ZIP archive:
/// nothing when its central directory does not parse or any entry's data
/// cannot be read back; a function of the bytes alone.
pub uninterp spec fn zip_entries_of(b: Seq<u8>) -> Option<Seq<(Seq<char>, Seq<u8>)>>;

/// The name-and-bytes shape of a run of owned entries.
pub open spec fn files_view(files: Seq<(String, Vec<u8>)>) -> Seq<(Seq<char>, Seq<u8>)> {
    files.map_values(|p: (String, Vec<u8>)| (p.0@, p.1@))
}

/// Relies on zip::ZipArchive::new over an in-memory cursor: whether the
/// bytes parse, which entries they list, and which entries read back are all
/// deterministic in the bytes alone; the bytes fully extract exactly when
/// every listed entry reads, and opening succeeds whenever they do.
#[verifier::external_body]
fn open_archive(data: Vec<u8>) -> (r: Result<
    zip::read::ZipArchive<std::io::Cursor<Vec<u8>>>,
    ZipPngError,
>)
    ensures
        zip_entries_of(data@) is Some ==> r is Ok,
        match r {
            Ok(a) => {
                &&& (zip_entries_of(data@) is Some <==> (forall|j: int|
                    0 <= j < archive_entries(a).len() ==> #[trigger] entry_readable(a, j)))
                &&& (zip_entries_of(data@) is Some ==> archive_entries(a) == zip_entries_of(
                    data@,
                ).unwrap())
            },
            Err(er) => er == ZipPngError::MalformedInput && zip_entries_of(data@) is None,
        },
{
    match zip::read::ZipArchive::new(std::io::Cursor::new(data)) {
        Ok(a) => Ok(a),
        Err(_) => Err(ZipPngError::MalformedInput),
    }
}

/// Relies on zip::ZipArchive::len: how many entries the archive lists.
#[verifier::external_body]
fn archive_len(a: &zip::read::ZipArchive<std::io::Cursor<Vec<u8>>>) -> (n: usize)
    ensures
        n == archive_entries(*a).len(),
{
    a.len()
}

/// Relies on zip::ZipArchive::by_index, zip::read::ZipFile::name and
/// io::Read::read_to_end: entry `i`'s name and decompressed bytes, returned
/// exactly when that entry reads back; reading moves only the cursor, so
/// neither the listed entries nor any entry's readability changes.
#[verifier::external_body]
fn read_entry(a: &mut zip::read::ZipArchive<std::io::Cursor<Vec<u8>>>, i: usize) -> (r: Result<
    (String, Vec<u8>),
    ZipPngError,
>)
    requires
        i < archive_entries(*old(a)).len(),
    ensures
        archive_entries(*final(a)) == archive_entries(*old(a)),
        forall|j: int| #[trigger] entry_readable(*final(a), j) == entry_readable(*old(a), j),
        r is Ok <==> entry_readable(*old(a), i as int),
        match r {
            Ok(p) => (p.0@, p.1@) == archive_entries(*old(a))[i as int],
            Err(er) => er == ZipPngError::MalformedInput,
        },
{
    let mut f = match a.by_index(i) {
        Ok(f) => f,
        Err(_) => {
            return Err(ZipPngError::MalformedInput);
        },
    };
    let name = f.name().to_string();
    let mut buf: Vec<u8> = Vec::new();
    match std::io::Read::read_to_end(&mut f, &mut buf) {
        Ok(_) => Ok((name, buf)),
        Err(_) => Err(ZipPngError::MalformedInput),
    }
}

/// Lists a plain archive's entries in order, each as its name and
/// decompressed bytes. Succeeds exactly on the buffers that fully extract.
pub fn unzip_archive(data: &[u8]) -> (r: Result<Vec<(String, Vec<u8>)>, ZipPngError>)
    ensures
        r is Ok <==> zip_entries_of(data@) is Some,
        match r {
            Ok(v) => zip_entries_of(data@) is Some && files_view(v@) == zip_entries_of(
                data@,
            ).unwrap(),
            Err(er) => er == ZipPngError::MalformedInput,
        },
{
    let mut a = match open_archive(vstd::slice::slice_to_vec(data)) {
        Ok(a) => a,
        Err(er) => {
            return Err(er);
        },
    };
    let n = archive_len(&a);
    let mut v: Vec<(String, Vec<u8>)> = Vec::new();
    let mut i: usize = 0;
    while i < n
        invariant
            i <= n,
            n == archive_entries(a).len(),
            zip_entries_of(data@) is Some <==> (forall|j: int|
                0 <= j < n ==> #[trigger] entry_readable(a, j)),
            zip_entries_of(data@) is Some ==> archive_entries(a) == zip_entries_of(data@).unwrap(),
            forall|k: int| 0 <= k < i ==> #[trigger] entry_readable(a, k),
            files_view(v@) == archive_entries(a).take(i as int),
        decreases n - i,
    {
        let ghost a0 = a;
        let p = match read_entry(&mut a, i) {
            Ok(p) => p,
            Err(er) => {
                return Err(er);
            },
        };
        proof {
            assert(forall|j: int|
                #![trigger entry_readable(a, j)]
                #![trigger entry_readable(a0, j)]
                entry_readable(a, j) == entry_readable(a0, j));
            assert((forall|j: int| 0 <= j < n ==> #[trigger] entry_readable(a0, j)) <==> (
            forall|j: int| 0 <= j < n ==> #[trigger] entry_readable(a, j)));
            let f = |q: (String, Vec<u8>)| (q.0@, q.1@);
            assert(v@.push(p).map_values(f) =~= v@.map_values(f).push((p.0@, p.1@)));
            assert(archive_entries(a).take(i + 1) =~= archive_entries(a).take(i as int).push(
                archive_entries(a)[i as int],
            ));
        }
        v.push(p);
        i = i + 1;
    }
    proof {
        assert(archive_entries(a).take(n as int) =~= archive_entries(a));
    }
    Ok(v)
}

/// An archive under construction, serialized entry by entry into an
/// in-memory buffer by the zip crate's writer.
#[verifier::external_body]
pub struct ArchiveBuilder {
    inner: zip::write::ZipWriter<std::io::Cursor<Vec<u8>>>,
}

/// The entries appended to a builder so far, in order: each entry's name and
/// original bytes.
pub uninterp spec fn builder_files(b: ArchiveBuilder) -> Seq<(Seq<char>, Seq<u8>)>;

/// True when the zip writer, holding `files`, accepts one more entry of this
/// name and data: the name is not a duplicate and fits its length field, and
/// the data stays under the writer's plain 32-bit entry-size threshold. A
/// function of the entries written so far, the name and the data alone; the
/// in-memory sink cannot fail.
pub uninterp spec fn builder_accepts(
    files: Seq<(Seq<char>, Seq<u8>)>,
    name: Seq<char>,
    data: Seq<u8>,
) -> bool;

/// The archive the zip writer serializes `files` to, or nothing where
/// finishing fails; with the in-memory sink and fixed entry metadata this is
/// a function of the entries alone.
pub uninterp spec fn zip_finalizes(files: Seq<(Seq<char>, Seq<u8>)>) -> Option<Seq<u8>>;

/// True when the zip writer accepts every entry in turn and finishes.
pub open spec fn serialization_ok(files: Seq<(Seq<char>, Seq<u8>)>) -> bool {
    &&& forall|i: int|
        0 <= i < files.len() ==> #[trigger] builder_accepts(files.take(i), files[i].0, files[i].1)
    &&& zip_finalizes(files) is Some
}

impl ArchiveBuilder {
    /// Relies on zip::ZipWriter::new: a fresh writer holds no entries.
    #[verifier::external_body]
    pub fn new() -> (r: ArchiveBuilder)
        ensures
            builder_files(r) == Seq::<(Seq<char>, Seq<u8>)>::empty(),
    {
        ArchiveBuilder { inner: zip::write::ZipWriter::new(std::io::Cursor::new(Vec::new())) }
    }

    /// Relies on zip::ZipWriter::start_file and io::Write::write_all: the
    /// named entry holding these bytes is appended exactly when the writer
    /// accepts it, which depends on the entries written so far, the name,
    /// and the data's size alone.
    #[verifier::external_body]
    pub fn add_file(&mut self, name: &str, data: &[u8]) -> (r: Result<(), ZipPngError>)
        ensures
            r is Ok <==> builder_accepts(builder_files(*old(self)), name@, data@),
            match r {
                Ok(u) => builder_files(*final(self)) == builder_files(*old(self)).push(
                    (name@, data@),
                ),
                Err(er) => er == ZipPngError::IOFailure,
            },
    {
        let opts = zip::write::SimpleFileOptions::default();
        if self.inner.start_file(name, opts).is_err() {
            return Err(ZipPngError::IOFailure);
        }
        if std::io::Write::write_all(&mut self.inner, data).is_err() {
            return Err(ZipPngError::IOFailure);
        }
        Ok(())
    }

    /// Relies on zip::ZipWriter::finish: serializing the written entries is
    /// deterministic, and the serialized archive reads back as exactly those
    /// entries, in order.
    #[verifier::external_body]
    pub fn finish(self) -> (r: Result<Vec<u8>, ZipPngError>)
        ensures
            r is Ok <==> zip_finalizes(builder_files(self)) is Some,
            match r {
                Ok(v) => zip_finalizes(builder_files(self)) == Some(v@) && zip_entries_of(v@)
                    == Some(builder_files(self)),
                Err(er) => er == ZipPngError::IOFailure,
            },
    {
        match self.inner.finish() {
            Ok(c) => Ok(c.into_inner()),
            Err(_) => Err(ZipPngError::IOFailure),
        }
    }
}

/// Serializes `files` as a fresh ZIP archive and embeds it into the donor
/// image, returning the composite polyglot bytes. Succeeds whenever the zip
/// writer takes every entry and the serialized archive composes with the
/// image; propagates the failing stage's error otherwise.
pub fn create_archive_from_files(img: &[u8], files: &[(String, Vec<u8>)]) -> (r: Result<
    Vec<u8>,
    ZipPngError,
>)
    ensures
        serialization_ok(files_view(files@)) && compose_ok(
            img@,
            zip_finalizes(files_view(files@)).unwrap(),
        ) ==> r is Ok,
        match r {
            Ok(out) => ({
                let zb = zip_finalizes(files_view(files@));
                &&& serialization_ok(files_view(files@))
                &&& zb is Some
                &&& zip_entries_of(zb.unwrap()) == Some(files_view(files@))
                &&& compose_ok(img@, zb.unwrap())
                &&& out@ == spec_composite(img@, zb.unwrap())
            }),
            Err(er) => er == ZipPngError::IOFailure || ({
                let zb = zip_finalizes(files_view(files@));
                &&& zb is Some
                &&& !compose_ok(img@, zb.unwrap())
                &&& er == spec_compose_error(img@, zb.unwrap())
            }),
        },
{
    let ghost fv = files_view(files@);
    let mut b = ArchiveBuilder::new();
    let mut i: usize = 0;
    while i < files.len()
        invariant
            i <= files@.len(),
            fv == files_view(files@),
            builder_files(b) == fv.take(i as int),
            forall|k: int|
                0 <= k < i ==> #[trigger] builder_accepts(fv.take(k), fv[k].0, fv[k].1),
        decreases files@.len() - i,
    {
        let p = &files[i];
        proof {
            let f = |q: (String, Vec<u8>)| (q.0@, q.1@);
            assert(fv[i as int] == (files@[i as int].0@, files@[i as int].1@));
        }
        let added = b.add_file(p.0.as_str(), p.1.as_slice());
        if added.is_err() {
            proof {
                assert(!builder_accepts(fv.take(i as int), fv[i as int].0, fv[i as int].1));
                assert(!serialization_ok(fv));
            }
            return Err(ZipPngError::IOFailure);
        }
        proof {
            let f = |q: (String, Vec<u8>)| (q.0@, q.1@);
            assert(files@.take(i + 1) =~= files@.take(i as int).push(files@[i as int]));
            assert(fv.take(i + 1) =~= fv.take(i as int).push(fv[i as int]));
            assert(files_view(files@.take(i + 1)) =~= files_view(files@.take(i as int)).push(
                (files@[i as int].0@, files@[i as int].1@),
            ));
        }
        i = i + 1;
    }
    proof {
        assert(fv.take(files@.len() as int) =~= fv);
    }
    let zbytes = match b.finish() {
        Ok(v) => v,
        Err(er) => {
            proof {
                assert(zip_finalizes(fv) is None);
                assert(!serialization_ok(fv));
            }
            return Err(er);
        },
    };
    let out = match crate::compose::create_archive(img, zbytes.as_slice()) {
        Ok(o) => o,
        Err(er) => {
            proof {
                assert(zip_finalizes(fv) == Some(zbytes@));
                assert(!compose_ok(img@, zbytes@) && er == spec_compose_error(img@, zbytes@));
            }
            return Err(er);
        },
    };
    proof {
        assert(zip_finalizes(fv) == Some(zbytes@));
        assert(zip_entries_of(zbytes@) == Some(fv) && compose_ok(img@, zbytes@) && out@
            == spec_composite(img@, zbytes@));
    }
    Ok(out)
}

} // verus!
