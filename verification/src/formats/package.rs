//! The zip package of a `.docx`, through the `zip` crate.

use vstd::prelude::*;
use std::io::Cursor;
use zip::{ZipArchive, ZipWriter};

verus! {

#[verifier::external_type_specification]
#[verifier::external_body]
#[verifier::reject_recursive_types(T)]
pub struct ExCursor<T>(std::io::Cursor<T>);

#[verifier::external_type_specification]
#[verifier::external_body]
#[verifier::reject_recursive_types(R)]
pub struct ExZipArchive<R>(zip::ZipArchive<R>);

/// An archive being written into memory: a `zip::ZipWriter` over a `Vec<u8>` buffer, held
/// opaque. What it holds is described by the calls made on it (`package_steps`).
#[verifier::external_body]
pub struct PackageWriter {
    w: ZipWriter<Cursor<Vec<u8>>>,
}

/// Why reading a member failed.
#[derive(Debug)]
pub enum MemberError {
    /// `ZipArchive::by_name` failed (no such member, or a broken entry), with its message.
    Lookup(String),
    /// Reading the member's data failed, with the I/O error's message.
    Io(String),
}

/// The mathematical content of a member error.
pub enum MemberErrorView {
    Lookup(Seq<char>),
    Io(Seq<char>),
}

impl View for MemberError {
    type V = MemberErrorView;

    open spec fn view(&self) -> MemberErrorView {
        match self {
            MemberError::Lookup(m) => MemberErrorView::Lookup(m@),
            MemberError::Io(m) => MemberErrorView::Io(m@),
        }
    }
}

/// The bytes an opened archive reads from.
pub uninterp spec fn zip_source(a: ZipArchive<Cursor<&[u8]>>) -> Seq<u8>;

/// Whether `zip` rejects these bytes as an archive, with its error message.
pub uninterp spec fn zip_open_error(bytes: Seq<u8>) -> Option<Seq<char>>;

/// The decompressed data of the member `name` of the archive in `bytes`, or why it could not
/// be read.
pub uninterp spec fn zip_member(bytes: Seq<u8>, name: Seq<char>) -> Result<Seq<u8>, MemberErrorView>;

/// `zip::ZipArchive::new` over the bytes. The contract names the outcome and ties the archive
/// to the bytes it reads.
#[verifier::external_body]
pub(crate) fn zip_open<'a>(bytes: &'a [u8]) -> (r: Result<ZipArchive<Cursor<&'a [u8]>>, String>)
    ensures
        match r {
            Ok(a) => zip_open_error(bytes@) is None && zip_source(a) == bytes@,
            Err(m) => zip_open_error(bytes@) == Some(m@),
        },
{
    ZipArchive::new(Cursor::new(bytes)).map_err(|e| e.to_string())
}

/// `zip::ZipArchive::by_name`, then `std::io::Read::read_to_end` on the member. The contract
/// names the outcome; the archive keeps reading the same bytes.
#[verifier::external_body]
pub(crate) fn zip_read_member(a: &mut ZipArchive<Cursor<&[u8]>>, name: &str) -> (r: Result<Vec<u8>, MemberError>)
    ensures
        zip_source(*final(a)) == zip_source(*old(a)),
        match r {
            Ok(v) => zip_member(zip_source(*old(a)), name@) == Ok::<Seq<u8>, MemberErrorView>(v@),
            Err(e) => zip_member(zip_source(*old(a)), name@) == Err::<Seq<u8>, MemberErrorView>(e@),
        },
{
    let mut f = a.by_name(name).map_err(|e| MemberError::Lookup(e.to_string()))?;
    let mut buf = Vec::new();
    std::io::Read::read_to_end(&mut f, &mut buf).map_err(|e| MemberError::Io(e.to_string()))?;
    Ok(buf)
}

/// The number of entries of the archive in `bytes`.
pub uninterp spec fn zip_entry_count(bytes: Seq<u8>) -> nat;

/// The name of entry `i` of the archive in `bytes`, or why it could not be had.
pub uninterp spec fn zip_entry_name_at(bytes: Seq<u8>, i: int) -> Result<Seq<char>, Seq<char>>;

/// `zip::ZipArchive::len`: the number of entries, named over the bytes read.
#[verifier::external_body]
pub(crate) fn zip_len(a: &ZipArchive<Cursor<&[u8]>>) -> (n: usize)
    ensures
        n == zip_entry_count(zip_source(*a)),
{
    a.len()
}

/// `zip::ZipArchive::by_index_raw`, then the entry's `name`. On failure, the error's message.
/// The outcome is named over the bytes read; the archive keeps reading the same bytes.
#[verifier::external_body]
pub(crate) fn zip_entry_name(a: &mut ZipArchive<Cursor<&[u8]>>, i: usize) -> (r: Result<String, String>)
    ensures
        zip_source(*final(a)) == zip_source(*old(a)),
        match r {
            Ok(n) => zip_entry_name_at(zip_source(*old(a)), i as int) == Ok::<Seq<char>, Seq<char>>(n@),
            Err(m) => zip_entry_name_at(zip_source(*old(a)), i as int) == Err::<Seq<char>, Seq<char>>(m@),
        },
{
    let f = a.by_index_raw(i).map_err(|e| e.to_string())?;
    f.name().map(|n| n.to_string()).map_err(|e| e.to_string())
}

/// A call made on a package writer: starting a deflated entry of that name, writing bytes
/// into the entry being written, or copying entry `i` of the archive in those bytes as it
/// is stored.
pub enum PackageStep {
    Start(Seq<char>),
    Write(Seq<u8>),
    CopyRaw(Seq<u8>, int),
}

/// The calls made so far on a writer, in order, whether they succeeded or not.
pub uninterp spec fn package_steps(w: PackageWriter) -> Seq<PackageStep>;

/// The error `zip::ZipWriter::start_file` gives after these calls, if any.
pub uninterp spec fn zip_start_error(history: Seq<PackageStep>, name: Seq<char>) -> Option<Seq<char>>;

/// The error `write_all` into a `zip::ZipWriter` gives after these calls, if any.
pub uninterp spec fn zip_write_error(history: Seq<PackageStep>, data: Seq<u8>) -> Option<Seq<char>>;

/// The error `zip::ZipArchive::by_index_raw` gives for entry `i` of the archive in `bytes`,
/// if any.
pub uninterp spec fn zip_raw_entry_error(bytes: Seq<u8>, i: int) -> Option<Seq<char>>;

/// The error `zip::ZipWriter::raw_copy_file` gives for entry `i` of the archive in `bytes`
/// after these calls, if any.
pub uninterp spec fn zip_copy_error(history: Seq<PackageStep>, bytes: Seq<u8>, i: int) -> Option<Seq<char>>;

/// What `zip::ZipWriter::finish` gives after these calls on an empty in-memory buffer: the
/// buffer's bytes, or the error's message.
pub uninterp spec fn zip_finish_outcome(history: Seq<PackageStep>) -> Result<Seq<u8>, Seq<char>>;

/// `zip::ZipWriter::new` over an empty in-memory buffer: no call made yet.
#[verifier::external_body]
pub(crate) fn zip_writer_new() -> (w: PackageWriter)
    ensures
        package_steps(w) == Seq::<PackageStep>::empty(),
{
    PackageWriter { w: ZipWriter::new(Cursor::new(Vec::new())) }
}

/// `zip::ZipWriter::start_file` with Deflate compression. The call is recorded; its outcome is
/// named over the calls made before. On failure, the error's message.
#[verifier::external_body]
pub(crate) fn zip_start_deflated(w: &mut PackageWriter, name: &str) -> (r: Result<(), String>)
    ensures
        package_steps(*final(w)) == package_steps(*old(w)).push(PackageStep::Start(name@)),
        match r {
            Ok(()) => zip_start_error(package_steps(*old(w)), name@) is None,
            Err(m) => zip_start_error(package_steps(*old(w)), name@) == Some(m@),
        },
{
    let opts = zip::write::SimpleFileOptions::default().compression_method(zip::CompressionMethod::Deflated);
    w.w.start_file(name, opts).map_err(|e| e.to_string())
}

/// `std::io::Write::write_all` into the file being written. The call is recorded; its outcome
/// is named over the calls made before. On failure, the error's message.
#[verifier::external_body]
pub(crate) fn zip_write_all(w: &mut PackageWriter, data: &[u8]) -> (r: Result<(), String>)
    ensures
        package_steps(*final(w)) == package_steps(*old(w)).push(PackageStep::Write(data@)),
        match r {
            Ok(()) => zip_write_error(package_steps(*old(w)), data@) is None,
            Err(m) => zip_write_error(package_steps(*old(w)), data@) == Some(m@),
        },
{
    std::io::Write::write_all(&mut w.w, data).map_err(|e| e.to_string())
}

/// Why copying an entry failed.
#[derive(Debug)]
pub enum CopyError {
    /// `ZipArchive::by_index_raw` failed, with its message.
    Read(String),
    /// `ZipWriter::raw_copy_file` failed, with its message.
    Copy(String),
}

/// `zip::ZipArchive::by_index_raw`, then `zip::ZipWriter::raw_copy_file`: the entry is copied
/// as it is stored, without recompressing. When the entry cannot be had, the writer is not
/// called; otherwise the copy is recorded. Both outcomes are named. The archive keeps reading
/// the same bytes.
#[verifier::external_body]
pub(crate) fn zip_copy_raw(w: &mut PackageWriter, a: &mut ZipArchive<Cursor<&[u8]>>, i: usize) -> (r: Result<(), CopyError>)
    ensures
        zip_source(*final(a)) == zip_source(*old(a)),
        match zip_raw_entry_error(zip_source(*old(a)), i as int) {
            Some(m) => {
                &&& package_steps(*final(w)) == package_steps(*old(w))
                &&& r matches Err(CopyError::Read(x)) && x@ == m
            },
            None => {
                &&& package_steps(*final(w)) == package_steps(*old(w)).push(PackageStep::CopyRaw(zip_source(*old(a)), i as int))
                &&& match zip_copy_error(package_steps(*old(w)), zip_source(*old(a)), i as int) {
                    Some(m) => r matches Err(CopyError::Copy(x)) && x@ == m,
                    None => r is Ok,
                }
            },
        },
{
    let f = a.by_index_raw(i).map_err(|e| CopyError::Read(e.to_string()))?;
    w.w.raw_copy_file(f).map_err(|e| CopyError::Copy(e.to_string()))
}

/// `zip::ZipWriter::finish`, then the buffer's bytes; the outcome is named over the calls
/// made. On failure, the error's message.
#[verifier::external_body]
pub(crate) fn zip_finish(w: PackageWriter) -> (r: Result<Vec<u8>, String>)
    ensures
        match r {
            Ok(out) => zip_finish_outcome(package_steps(w)) == Ok::<Seq<u8>, Seq<char>>(out@),
            Err(m) => zip_finish_outcome(package_steps(w)) == Err::<Seq<u8>, Seq<char>>(m@),
        },
{
    w.w.finish().map(|c| c.into_inner()).map_err(|e| e.to_string())
}

}
