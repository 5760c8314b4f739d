//! Trusted boundary to the zip codec: declarations of the outside types, names
//! for what an opened archive and an archive under construction hold, and thin
//! wrappers around the calls the library makes. Everything the library proves
//! about archives rests on the contracts stated here.
use vstd::prelude::*;
use std::io::Cursor;

verus! {

#[verifier::external_type_specification]
#[verifier::external_body]
#[verifier::reject_recursive_types(T)]
pub struct ExCursor<T>(Cursor<T>);

#[verifier::external_type_specification]
#[verifier::external_body]
#[verifier::reject_recursive_types(R)]
pub struct ExZipArchive<R>(zip::read::ZipArchive<R>);

#[verifier::external_type_specification]
#[verifier::external_body]
pub struct ExZipError(zip::result::ZipError);

/// An archive under construction. This holds zip's ZipWriter over an
/// in-memory buffer; the writer type itself carries trait bounds that cannot
/// be declared to the verifier, so the whole struct is opaque.
#[verifier::external_body]
pub struct ArchiveWriter {
    inner: zip::write::ZipWriter<Cursor<Vec<u8>>>,
}

/// The ordered entries of an opened archive, each a pair of name bytes and
/// content bytes.
pub uninterp spec fn zip_entries(a: zip::read::ZipArchive<Cursor<Vec<u8>>>) -> Seq<(Seq<u8>, Seq<u8>)>;

/// The entries accumulated so far by an archive writer, in the order they
/// were started.
pub uninterp spec fn writer_entries(w: ArchiveWriter) -> Seq<(Seq<u8>, Seq<u8>)>;

/// The entries that a byte string yields when parsed as a compressed package,
/// if it parses at all.
pub uninterp spec fn zip_parse(bytes: Seq<u8>) -> Option<Seq<(Seq<u8>, Seq<u8>)>>;

/// The bytes an opened archive was parsed from.
pub uninterp spec fn zip_source(a: zip::read::ZipArchive<Cursor<Vec<u8>>>) -> Seq<u8>;

/// Whether, in the package these bytes hold, the entry at index `i` can be
/// opened and its name produced.
pub uninterp spec fn zip_name_ok(bytes: Seq<u8>, i: int) -> bool;

/// Whether, in the package these bytes hold, the entry at index `i` can be
/// opened and its content read in full.
pub uninterp spec fn zip_data_ok(bytes: Seq<u8>, i: int) -> bool;

/// Whether the bytes are valid UTF-8. This is a name for what
/// str::from_utf8 accepts, not a definition of the encoding, so nothing can
/// be proved UTF-8 without running the check: callers that need the fact of
/// computed text (say, replaced content about to be rewritten and reloaded)
/// establish it at run time through `check_utf8`.
pub uninterp spec fn utf8_ok(bytes: Seq<u8>) -> bool;

/// Whether the writer has an entry open for content.
pub uninterp spec fn writer_open(w: ArchiveWriter) -> bool;

/// Whether every entry of the writer so far was started with the fixed
/// storage options: stored (uncompressed) content and permission bits 0o755.
pub uninterp spec fn writer_fixed_storage(w: ArchiveWriter) -> bool;

/// Whether every entry of the package these bytes hold is stored
/// (uncompressed) with permission bits 0o755.
pub uninterp spec fn fixed_storage(bytes: Seq<u8>) -> bool;

/// No two entries share a name.
pub open spec fn names_unique(es: Seq<(Seq<u8>, Seq<u8>)>) -> bool {
    forall|a: int, b: int| 0 <= a < b < es.len() ==> es[a].0 != es[b].0
}

/// Relies on zip's ZipArchive::new over an in-memory buffer: parsing succeeds
/// exactly when the bytes form a valid package, and yields its entries in
/// archive order. (Decoded entry names need not be unique: distinct raw names
/// can decode alike, so uniqueness is checked in verified code at load.)
#[verifier::external_body]
pub(crate) fn open_archive(data: Vec<u8>) -> (r: Result<
    zip::read::ZipArchive<Cursor<Vec<u8>>>,
    zip::result::ZipError,
>)
    ensures
        match r {
            Ok(a) => zip_parse(data@) == Some(zip_entries(a)) && zip_source(a) == data@,
            Err(_) => zip_parse(data@) is None,
        },
{
    zip::read::ZipArchive::new(Cursor::new(data))
}

/// Relies on zip's ZipArchive::len: the number of entries.
#[verifier::external_body]
pub(crate) fn archive_len(a: &zip::read::ZipArchive<Cursor<Vec<u8>>>) -> (r: usize)
    ensures
        r == zip_entries(*a).len(),
{
    a.len()
}

/// Relies on zip's ZipArchive::by_index and ZipFile::name: the name of the
/// entry at a valid index, succeeding exactly when the entry can be opened
/// (deterministic over the in-memory buffer). The name comes from a &str, so
/// it is valid UTF-8; its raw form is bounded by the format's 16-bit length
/// field, and decoding (CP437 or lossy UTF-8) yields at most three bytes per
/// raw byte. Reading never changes the archive's entries or its source bytes.
#[verifier::external_body]
pub(crate) fn entry_name_at(
    a: &mut zip::read::ZipArchive<Cursor<Vec<u8>>>,
    i: usize,
) -> (r: Result<Vec<u8>, zip::result::ZipError>)
    requires
        i < zip_entries(*old(a)).len(),
    ensures
        zip_entries(*final(a)) == zip_entries(*old(a)),
        zip_source(*final(a)) == zip_source(*old(a)),
        r is Ok <==> zip_name_ok(zip_source(*old(a)), i as int),
        r matches Ok(n) ==> n@ == zip_entries(*old(a))[i as int].0 && utf8_ok(n@) && n@.len()
            <= 3 * 0xFFFF,
{
    let f = a.by_index(i)?;
    Ok(f.name().as_bytes().to_vec())
}

/// Relies on zip's ZipArchive::by_index and Read::read_to_end: the content
/// bytes of the entry at a valid index, succeeding exactly when the entry can
/// be opened and fully read (deterministic over the in-memory buffer).
/// Reading never changes the archive's entries or its source bytes.
#[verifier::external_body]
pub(crate) fn entry_data_at(
    a: &mut zip::read::ZipArchive<Cursor<Vec<u8>>>,
    i: usize,
) -> (r: Result<Vec<u8>, zip::result::ZipError>)
    requires
        i < zip_entries(*old(a)).len(),
    ensures
        zip_entries(*final(a)) == zip_entries(*old(a)),
        zip_source(*final(a)) == zip_source(*old(a)),
        r is Ok <==> zip_data_ok(zip_source(*old(a)), i as int),
        r matches Ok(d) ==> d@ == zip_entries(*old(a))[i as int].1,
{
    let mut f = a.by_index(i)?;
    let mut d = Vec::new();
    std::io::Read::read_to_end(&mut f, &mut d).map_err(zip::result::ZipError::Io)?;
    Ok(d)
}

/// Relies on std's str::from_utf8: whether the bytes are valid UTF-8.
#[verifier::external_body]
pub(crate) fn check_utf8(data: &Vec<u8>) -> (r: bool)
    ensures
        r <==> utf8_ok(data@),
{
    std::str::from_utf8(data.as_slice()).is_ok()
}

/// Relies on zip's ZipWriter::new over an empty in-memory buffer: a fresh
/// writer holds no entries, and all its entries (vacuously) carry the fixed
/// storage options.
#[verifier::external_body]
pub(crate) fn writer_new() -> (r: ArchiveWriter)
    ensures
        writer_entries(r) == Seq::<(Seq<u8>, Seq<u8>)>::empty(),
        writer_fixed_storage(r),
{
    ArchiveWriter { inner: zip::write::ZipWriter::new(Cursor::new(Vec::new())) }
}

/// Relies on zip's ZipWriter::start_file with fixed options, stored
/// (uncompressed) content and permission bits 0o755: on success a new entry
/// with the given name and empty content is appended and open for content.
/// The call fails exactly on a name that is not valid UTF-8 (checked here
/// before the call), repeats an earlier entry's name, or exceeds the format's
/// 16-bit name-length field; on an in-memory buffer, nothing else fails while
/// no entry holds more content than the plain 32-bit size field carries.
#[verifier::external_body]
pub(crate) fn start_entry(
    w: &mut ArchiveWriter,
    name: &Vec<u8>,
) -> (r: Result<(), zip::result::ZipError>)
    ensures
        r matches Ok(_) ==> writer_entries(*final(w)) == writer_entries(*old(w)).push(
            (name@, Seq::<u8>::empty()),
        ) && writer_open(*final(w)) && (writer_fixed_storage(*old(w))
            ==> writer_fixed_storage(*final(w))),
        r is Ok ==> utf8_ok(name@) && name@.len() <= 0xFFFF && (forall|k: int|
            0 <= k < writer_entries(*old(w)).len()
                ==> (#[trigger] writer_entries(*old(w))[k]).0 != name@),
        (utf8_ok(name@) && name@.len() <= 0xFFFF && (forall|k: int|
            0 <= k < writer_entries(*old(w)).len()
                ==> (#[trigger] writer_entries(*old(w))[k]).0 != name@) && (forall|k: int|
            0 <= k < writer_entries(*old(w)).len()
                ==> (#[trigger] writer_entries(*old(w))[k]).1.len() <= 0xFFFF_FFFF)) ==> r is Ok,
{
    let name_str = match std::str::from_utf8(name.as_slice()) {
        Ok(s) => s,
        Err(_) => return Err(zip::result::ZipError::InvalidArchive("entry name is not valid UTF-8".into())),
    };
    let opts = zip::write::SimpleFileOptions::default()
        .compression_method(zip::CompressionMethod::Stored)
        .unix_permissions(0o755);
    w.inner.start_file(name_str, opts)
}

/// Relies on the Write impl of zip's ZipWriter: written bytes are appended to
/// the content of the entry that must be open for writing. The call fails
/// when the entry's content would pass the plain 32-bit size field's limit;
/// on an in-memory buffer, nothing else fails.
#[verifier::external_body]
pub(crate) fn append_entry_data(
    w: &mut ArchiveWriter,
    data: &Vec<u8>,
) -> (r: Result<(), zip::result::ZipError>)
    requires
        writer_entries(*old(w)).len() >= 1,
        writer_open(*old(w)),
    ensures
        r matches Ok(_) ==> writer_entries(*final(w)) == writer_entries(*old(w)).update(
            writer_entries(*old(w)).len() - 1,
            (
                writer_entries(*old(w)).last().0,
                writer_entries(*old(w)).last().1 + data@,
            ),
        ) && writer_open(*final(w)) && (writer_fixed_storage(*old(w))
            ==> writer_fixed_storage(*final(w))),
        writer_entries(*old(w)).last().1.len() + data@.len() <= 0xFFFF_FFFF ==> r is Ok,
{
    std::io::Write::write_all(&mut w.inner, data.as_slice()).map_err(zip::result::ZipError::Io)
}

/// Relies on zip's ZipWriter::finish and Cursor::into_inner: the finished
/// buffer is a valid package that parses back to exactly the entries written,
/// each of which can be opened and fully read again. Entries written with
/// the fixed storage options come out stored with permission bits 0o755. On
/// an in-memory buffer the finish succeeds whenever every entry's name and
/// content fit the format's plain 16- and 32-bit size fields (larger offsets
/// and counts go to the 64-bit footer forms automatically).
#[verifier::external_body]
pub(crate) fn finish_archive(w: ArchiveWriter) -> (r: Result<
    Vec<u8>,
    zip::result::ZipError,
>)
    ensures
        r matches Ok(b) ==> zip_parse(b@) == Some(writer_entries(w)) && (forall|i: int|
            0 <= i < writer_entries(w).len() ==> zip_name_ok(b@, i) && #[trigger] zip_data_ok(
                b@,
                i,
            )) && (writer_fixed_storage(w) ==> fixed_storage(b@)),
        (forall|i: int|
            0 <= i < writer_entries(w).len() ==> (#[trigger] writer_entries(w)[i]).0.len()
                <= 0xFFFF && writer_entries(w)[i].1.len() <= 0xFFFF_FFFF) ==> r is Ok,
{
    let cur = w.inner.finish()?;
    Ok(cur.into_inner())
}

} // verus!
