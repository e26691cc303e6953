//! The OCF container of an EPUB: a ZIP archive written with the `zip`
//! crate. A ZIP writer is described by the calls made on it; the archive it
//! produces is named as a function of those calls.
use vstd::prelude::*;
use vstd::string::StringSliceAdditionalSpecFns;

use std::io::Cursor;
use std::io::Write;

use zip::result::ZipError;
use zip::ZipWriter;

use crate::prepare::{resources_view, Resource, ResourceV};
use crate::text::{owned, push_str};
use crate::EpubError;

verus! {

/// A ZIP writer on an in-memory buffer, kept whole behind the wrappers
/// below: `zip::ZipWriter<W>` is generic under the bounds `W: Write + Seek`,
/// so it is held in a private field of a type of this crate. A writer only
/// exists while every call made on it has succeeded: a wrapper whose call
/// fails drops it.
#[verifier::external_body]
pub struct ZipBuffer {
    writer: ZipWriter<Cursor<Vec<u8>>>,
}

#[verifier::external_type_specification]
#[verifier::external_body]
pub struct ExZipError(ZipError);

#[verifier::external_type_specification]
#[verifier::external_body]
pub struct ExIoError(std::io::Error);

/// How a file is stored in the archive, as `zip::CompressionMethod` has it.
#[derive(Clone, Copy, Debug, PartialEq, Eq, Structural)]
pub enum Compression {
    Stored,
    Deflated,
}

/// A call made on a ZIP writer.
pub enum ZipCall {
    /// Starting a file under a name with a compression method.
    StartFile(Seq<char>, Compression),
    /// Writing bytes into the current file.
    Write(Seq<u8>),
}

/// The calls made on a ZIP writer since it was created, in order.
pub uninterp spec fn zip_calls(w: ZipBuffer) -> Seq<ZipCall>;

/// The bytes that `ZipWriter::finish` leaves in the buffer of a writer
/// created on an empty in-memory buffer after the calls `calls` (for the
/// platform that the crate is built for: the writer records the host system
/// of each entry as the `zip` crate's build target has it).
pub uninterp spec fn zip_archive(calls: Seq<ZipCall>) -> Seq<u8>;

/// Whether `ZipWriter::start_file` succeeds for the file `name` with
/// `method` on a writer that the calls `calls` have brought to its state.
/// Its checks (a name not used before, limits on name and data sizes,
/// finishing the file before) depend on these alone.
pub uninterp spec fn zip_start_succeeds(calls: Seq<ZipCall>, name: Seq<char>, method: Compression) -> bool;

/// Whether `Write::write_all` of `data` succeeds on a writer that the calls
/// `calls` have brought to its state (it fails without a started file, or
/// once the file passes the ZIP32 size limit).
pub uninterp spec fn zip_write_succeeds(calls: Seq<ZipCall>, data: Seq<u8>) -> bool;

/// Whether `ZipWriter::finish` succeeds on a writer that the calls `calls`
/// have brought to its state.
pub uninterp spec fn zip_finish_succeeds(calls: Seq<ZipCall>) -> bool;

/// Whether each of `calls`, made in order on a new writer, succeeds.
pub open spec fn zip_accepts(calls: Seq<ZipCall>) -> bool
    decreases calls.len(),
{
    calls.len() == 0 || (zip_accepts(calls.drop_last()) && match calls.last() {
        ZipCall::StartFile(name, method) => zip_start_succeeds(calls.drop_last(), name, method),
        ZipCall::Write(data) => zip_write_succeeds(calls.drop_last(), data),
    })
}

/// Whether a new writer takes the calls `calls` and then finishes: the
/// archive that they describe is written.
pub open spec fn zip_writes(calls: Seq<ZipCall>) -> bool {
    zip_accepts(calls) && zip_finish_succeeds(calls)
}

/// Calls that a writer accepts have prefixes that it accepts.
pub proof fn lemma_zip_accepts_prefix(calls: Seq<ZipCall>, more: Seq<ZipCall>)
    requires
        zip_accepts(calls + more),
    ensures
        zip_accepts(calls),
    decreases more.len(),
{
    if more.len() > 0 {
        assert((calls + more).drop_last() =~= calls + more.drop_last());
        lemma_zip_accepts_prefix(calls, more.drop_last());
    } else {
        assert(calls + more =~= calls);
    }
}

/// Calls `ZipWriter::new` on an empty in-memory buffer.
#[verifier::external_body]
fn zip_new() -> (w: ZipBuffer)
    ensures
        zip_calls(w) == Seq::<ZipCall>::empty(),
{
    ZipBuffer { writer: ZipWriter::new(Cursor::new(Vec::new())) }
}

/// Calls `ZipWriter::start_file` with default options but the compression
/// method. The contract claims that the outcome is a function of the calls
/// made before, the name and the method, named `zip_start_succeeds`, and that
/// a started file is recorded; after an error the writer is dropped.
#[verifier::external_body]
fn zip_start_file(w: ZipBuffer, name: &str, method: Compression) -> (r: Result<ZipBuffer, ZipError>)
    ensures
        r is Ok <==> zip_start_succeeds(zip_calls(w), name@, method),
        r matches Ok(w2) ==> zip_calls(w2) == zip_calls(w).push(ZipCall::StartFile(name@, method)),
{
    let mut w = w;
    let method = match method {
        Compression::Stored => zip::CompressionMethod::Stored,
        Compression::Deflated => zip::CompressionMethod::Deflated,
    };
    let options = zip::write::SimpleFileOptions::default().compression_method(method);
    match w.writer.start_file(name, options) {
        Ok(()) => Ok(w),
        Err(error) => Err(error),
    }
}

/// Calls `std::io::Write::write_all` on the writer. The contract claims that
/// the outcome is a function of the calls made before and the data, named
/// `zip_write_succeeds`, and that written bytes are recorded; after an error
/// the writer is dropped.
#[verifier::external_body]
fn zip_write_all(w: ZipBuffer, data: &[u8]) -> (r: Result<ZipBuffer, std::io::Error>)
    ensures
        r is Ok <==> zip_write_succeeds(zip_calls(w), data@),
        r matches Ok(w2) ==> zip_calls(w2) == zip_calls(w).push(ZipCall::Write(data@)),
{
    let mut w = w;
    match w.writer.write_all(data) {
        Ok(()) => Ok(w),
        Err(error) => Err(error),
    }
}

/// Calls `ZipWriter::finish` and takes the buffer out of the cursor. The
/// contract claims that the outcome is a function of the calls made, named
/// `zip_finish_succeeds`, and that the archive is one too, named
/// `zip_archive`.
#[verifier::external_body]
fn zip_finish(w: ZipBuffer) -> (r: Result<Vec<u8>, ZipError>)
    ensures
        r is Ok <==> zip_finish_succeeds(zip_calls(w)),
        r matches Ok(bytes) ==> bytes@ == zip_archive(zip_calls(w)),
{
    match w.writer.finish() {
        Ok(cursor) => Ok(cursor.into_inner()),
        Err(error) => Err(error),
    }
}

/// Renders a `zip::result::ZipError` with its `Display` impl; nothing is
/// claimed of the text.
#[verifier::external_body]
fn zip_error_text(error: &ZipError) -> String {
    format!("{error}")
}

/// Renders a `std::io::Error` with its `Display` impl; nothing is claimed of
/// the text.
#[verifier::external_body]
fn io_error_text(error: &std::io::Error) -> String {
    format!("{error}")
}

/// The EPUB container descriptor.
pub const CONTAINER: &'static str = "<?xml version=\"1.0\" encoding=\"UTF-8\"?>
<container version=\"1.0\" xmlns=\"urn:oasis:names:tc:opendocument:xmlns:container\">
  <rootfiles>
    <rootfile full-path=\"EPUB/package.opf\" media-type=\"application/oebps-package+xml\"/>
  </rootfiles>
</container>
";

/// The message of a failed archive write: `failed to write EPUB (<reason>)`.
pub open spec fn archive_failure_message(message: Seq<char>) -> bool {
    exists|reason: Seq<char>| message == "failed to write EPUB ("@ + reason + seq![')']
}

/// Turn an archive error message into an export error.
fn archive_error(reason: String) -> (e: EpubError)
    ensures
        archive_failure_message(e.message@),
        e.element is None,
{
    let mut message = owned("failed to write EPUB (");
    push_str(&mut message, reason.as_str());
    message.push(')');
    assert(message@ =~= "failed to write EPUB ("@ + reason@ + seq![')']);
    EpubError { message, element: None }
}

/// The calls that store one file.
pub open spec fn file_calls(name: Seq<char>, method: Compression, data: Seq<u8>) -> Seq<ZipCall> {
    seq![ZipCall::StartFile(name, method), ZipCall::Write(data)]
}

/// The calls that store the resources under `EPUB/`, compressed, in order.
pub open spec fn resource_calls(rs: Seq<ResourceV>) -> Seq<ZipCall>
    decreases rs.len(),
{
    if rs.len() == 0 {
        Seq::empty()
    } else {
        resource_calls(rs.drop_last()) + file_calls(
            "EPUB/"@ + rs.last().path,
            Compression::Deflated,
            rs.last().data,
        )
    }
}

/// The calls that write an EPUB container: first the `mimetype` file,
/// stored uncompressed, then the container descriptor, the package document,
/// the navigation document, the content document and the resources.
pub open spec fn epub_calls(
    content: Seq<char>,
    navigation: Seq<char>,
    package: Seq<char>,
    resources: Seq<ResourceV>,
) -> Seq<ZipCall> {
    file_calls("mimetype"@, Compression::Stored, "application/epub+zip"@.map_values(|c: char| c as u8))
        + file_calls(
        "META-INF/container.xml"@,
        Compression::Deflated,
        vstd::utf8::encode_utf8(CONTAINER@),
    ) + file_calls("EPUB/package.opf"@, Compression::Deflated, vstd::utf8::encode_utf8(package))
        + file_calls("EPUB/nav.xhtml"@, Compression::Deflated, vstd::utf8::encode_utf8(navigation))
        + file_calls("EPUB/content.xhtml"@, Compression::Deflated, vstd::utf8::encode_utf8(content))
        + resource_calls(resources)
}

/// Stores one file in the archive.
fn store_file(
    archive: ZipBuffer,
    path: &str,
    data: &[u8],
    method: Compression,
) -> (r: Result<ZipBuffer, EpubError>)
    requires
        zip_accepts(zip_calls(archive)),
    ensures
        r is Ok <==> zip_accepts(zip_calls(archive) + file_calls(path@, method, data@)),
        r matches Ok(w) ==> zip_calls(w) == zip_calls(archive) + file_calls(path@, method, data@),
        r matches Err(e) ==> archive_failure_message(e.message@) && e.element is None,
{
    let ghost before = zip_calls(archive);
    let ghost all = before + file_calls(path@, method, data@);
    let ghost started = before.push(ZipCall::StartFile(path@, method));
    assert(all.drop_last() =~= started);
    assert(started.drop_last() =~= before);
    let archive = match zip_start_file(archive, path, method) {
        Ok(w) => w,
        Err(error) => {
            proof {
                assert(!zip_accepts(started));
                if zip_accepts(all) {
                    assert(started + seq![ZipCall::Write(data@)] =~= all);
                    lemma_zip_accepts_prefix(started, seq![ZipCall::Write(data@)]);
                }
            }
            return Err(archive_error(zip_error_text(&error)));
        },
    };
    assert(zip_accepts(started));
    assert(all.last() == ZipCall::Write(data@));
    match zip_write_all(archive, data) {
        Ok(w) => {
            assert(zip_calls(w) =~= all);
            Ok(w)
        },
        Err(error) => Err(archive_error(io_error_text(&error))),
    }
}

/// Write a UTF-8 file into the archive.
fn write_file(
    archive: ZipBuffer,
    path: &str,
    contents: &str,
    method: Compression,
) -> (r: Result<ZipBuffer, EpubError>)
    requires
        zip_accepts(zip_calls(archive)),
    ensures
        r is Ok <==> zip_accepts(
            zip_calls(archive) + file_calls(path@, method, vstd::utf8::encode_utf8(contents@)),
        ),
        r matches Ok(w) ==> zip_calls(w) == zip_calls(archive) + file_calls(
            path@,
            method,
            vstd::utf8::encode_utf8(contents@),
        ),
        r matches Err(e) ==> archive_failure_message(e.message@) && e.element is None,
{
    store_file(archive, path, contents.as_bytes(), method)
}

/// Write all EPUB files into their OCF ZIP container.
///
/// It succeeds exactly when the ZIP writer takes the files and finishes.
pub fn write(content: &str, navigation: &str, package: &str, resources: &[Resource]) -> (r: Result<
    Vec<u8>,
    EpubError,
>)
    ensures
        r is Ok <==> zip_writes(
            epub_calls(content@, navigation@, package@, resources_view(resources@)),
        ),
        match r {
            Ok(bytes) => bytes@ == zip_archive(
                epub_calls(content@, navigation@, package@, resources_view(resources@)),
            ),
            Err(e) => archive_failure_message(e.message@) && e.element is None,
        },
{
    let ghost rv = resources_view(resources@);
    let ghost full = epub_calls(content@, navigation@, package@, rv);
    let archive = zip_new();
    assert(zip_accepts(zip_calls(archive)));
    let mimetype = "application/epub+zip";
    let ghost mime_bytes = "application/epub+zip"@.map_values(|c: char| c as u8);
    proof {
        reveal_strlit("application/epub+zip");
        vstd::string::is_ascii_spec_bytes(mimetype);
        assert(mimetype.spec_bytes() =~= mime_bytes);
    }
    let ghost f0 = file_calls("mimetype"@, Compression::Stored, mime_bytes);
    let ghost f1 = file_calls(
        "META-INF/container.xml"@,
        Compression::Deflated,
        vstd::utf8::encode_utf8(CONTAINER@),
    );
    let ghost f2 = file_calls("EPUB/package.opf"@, Compression::Deflated, vstd::utf8::encode_utf8(package@));
    let ghost f3 = file_calls("EPUB/nav.xhtml"@, Compression::Deflated, vstd::utf8::encode_utf8(navigation@));
    let ghost f4 = file_calls("EPUB/content.xhtml"@, Compression::Deflated, vstd::utf8::encode_utf8(content@));
    let ghost rc = resource_calls(rv);
    assert(full =~= f0 + f1 + f2 + f3 + f4 + rc);
    let archive = match store_file(archive, "mimetype", mimetype.as_bytes(), Compression::Stored) {
        Ok(w) => w,
        Err(e) => {
            proof {
                assert(Seq::<ZipCall>::empty() + f0 =~= f0);
                if zip_accepts(full) {
                    assert(full =~= f0 + (f1 + f2 + f3 + f4 + rc));
                    lemma_zip_accepts_prefix(f0, f1 + f2 + f3 + f4 + rc);
                }
            }
            return Err(e);
        },
    };
    assert(zip_calls(archive) =~= f0);
    let archive = match write_file(archive, "META-INF/container.xml", CONTAINER, Compression::Deflated) {
        Ok(w) => w,
        Err(e) => {
            proof {
                if zip_accepts(full) {
                    assert(full =~= (f0 + f1) + (f2 + f3 + f4 + rc));
                    lemma_zip_accepts_prefix(f0 + f1, f2 + f3 + f4 + rc);
                }
            }
            return Err(e);
        },
    };
    let archive = match write_file(archive, "EPUB/package.opf", package, Compression::Deflated) {
        Ok(w) => w,
        Err(e) => {
            proof {
                if zip_accepts(full) {
                    assert(full =~= (f0 + f1 + f2) + (f3 + f4 + rc));
                    lemma_zip_accepts_prefix(f0 + f1 + f2, f3 + f4 + rc);
                }
            }
            return Err(e);
        },
    };
    let archive = match write_file(archive, "EPUB/nav.xhtml", navigation, Compression::Deflated) {
        Ok(w) => w,
        Err(e) => {
            proof {
                if zip_accepts(full) {
                    assert(full =~= (f0 + f1 + f2 + f3) + (f4 + rc));
                    lemma_zip_accepts_prefix(f0 + f1 + f2 + f3, f4 + rc);
                }
            }
            return Err(e);
        },
    };
    let mut archive = match write_file(archive, "EPUB/content.xhtml", content, Compression::Deflated) {
        Ok(w) => w,
        Err(e) => {
            proof {
                if zip_accepts(full) {
                    lemma_zip_accepts_prefix(f0 + f1 + f2 + f3 + f4, rc);
                }
            }
            return Err(e);
        },
    };
    let ghost head = zip_calls(archive);
    assert(head =~= f0 + f1 + f2 + f3 + f4);
    let mut i: usize = 0;
    while i < resources.len()
        invariant
            i <= resources.len(),
            rv == resources_view(resources@),
            rc == resource_calls(rv),
            full == head + rc,
            full == epub_calls(content@, navigation@, package@, rv),
            zip_calls(archive) == head + resource_calls(rv.take(i as int)),
            zip_accepts(zip_calls(archive)),
        decreases resources.len() - i,
    {
        let mut path = owned("EPUB/");
        push_str(&mut path, resources[i].path.as_str());
        proof {
            assert(rv.take(i + 1).drop_last() =~= rv.take(i as int));
            assert(rv.take(i + 1).last() == rv[i as int]);
        }
        let ghost next = head + resource_calls(rv.take(i + 1));
        assert(next =~= zip_calls(archive) + file_calls(path@, Compression::Deflated, rv[i as int].data));
        archive = match store_file(
            archive,
            path.as_str(),
            resources[i].data.as_slice(),
            Compression::Deflated,
        ) {
            Ok(w) => w,
            Err(e) => {
                proof {
                    if zip_accepts(full) {
                        lemma_resource_calls_split(rv, i as int + 1);
                        assert(rc == resource_calls(rv.take(i + 1)) + resource_calls(rv.skip(i + 1)));
                        assert(full =~= next + resource_calls(rv.skip(i + 1)));
                        lemma_zip_accepts_prefix(next, resource_calls(rv.skip(i + 1)));
                    }
                }
                return Err(e);
            },
        };
        i = i + 1;
    }
    proof {
        assert(rv.take(resources.len() as int) =~= rv);
        assert(zip_calls(archive) =~= full);
    }
    match zip_finish(archive) {
        Ok(bytes) => Ok(bytes),
        Err(error) => Err(archive_error(zip_error_text(&error))),
    }
}

/// The resource calls of a list are those of a prefix followed by those of
/// the rest.
proof fn lemma_resource_calls_split(rs: Seq<ResourceV>, k: int)
    requires
        0 <= k <= rs.len(),
    ensures
        resource_calls(rs) == resource_calls(rs.take(k)) + resource_calls(rs.skip(k)),
    decreases rs.len(),
{
    if k == rs.len() {
        assert(rs.take(k) =~= rs);
        assert(rs.skip(k) =~= Seq::<ResourceV>::empty());
        assert(resource_calls(rs) + Seq::<ZipCall>::empty() =~= resource_calls(rs));
    } else {
        lemma_resource_calls_split(rs.drop_last(), k);
        assert(rs.drop_last().take(k) =~= rs.take(k));
        assert(rs.skip(k).drop_last() =~= rs.drop_last().skip(k));
        assert(rs.skip(k).last() == rs.last());
    }
}

} // verus!
