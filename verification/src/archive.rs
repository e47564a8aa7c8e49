//! The ZIP archive that a DOCX file is.

use std::io::Cursor;
use std::io::Read;
use vstd::prelude::*;
use zip::result::ZipError;
use zip::ZipArchive;

verus! {

/// An archive opened for reading.
#[verifier::external_type_specification]
#[verifier::external_body]
#[verifier::reject_recursive_types(R)]
pub struct ExZipArchive<R>(ZipArchive<R>);

/// A reader over bytes in memory.
#[verifier::external_type_specification]
#[verifier::external_body]
#[verifier::reject_recursive_types(T)]
pub struct ExCursor<T>(Cursor<T>);

/// The errors of the ZIP reader.
#[verifier::external_type_specification]
#[verifier::external_body]
pub struct ExZipError(ZipError);

/// The errors of reading a stream.
#[verifier::external_type_specification]
#[verifier::external_body]
pub struct ExIoError(std::io::Error);

/// What reading an entry as text gives: its text; an error where the entry can
/// be opened but does not hold UTF-8 text or is damaged; or an error where it
/// cannot be opened, most of all because there is none of that name.
pub type Entry = Result<Result<String, std::io::Error>, ZipError>;

/// An `Entry` with its text as characters.
pub type EntryText = Result<Result<Seq<char>, std::io::Error>, ZipError>;

pub open spec fn entry_view(entry: Entry) -> EntryText {
    match entry {
        Ok(Ok(text)) => Ok(Ok(text@)),
        Ok(Err(e)) => Ok(Err(e)),
        Err(e) => Err(e),
    }
}

/// What some bytes hold when they are opened as an archive: for each name, what
/// reading the entry of that name gives; or an error where they are no archive.
pub uninterp spec fn opened(bytes: Seq<u8>) -> Result<Map<Seq<char>, EntryText>, ZipError>;

/// What an archive holds: for each name, what reading the entry of that name
/// gives.
pub uninterp spec fn entries(archive: ZipArchive<Cursor<&[u8]>>) -> Map<Seq<char>, EntryText>;

/// `zip::ZipArchive::new` on bytes in memory. Whether the bytes are an archive,
/// the error where they are not, and what the archive holds are functions of the
/// bytes.
#[verifier::external_body]
pub(crate) fn open_archive(bytes: &[u8]) -> (r: Result<ZipArchive<Cursor<&[u8]>>, ZipError>)
    ensures
        match r {
            Ok(archive) => opened(bytes@) == Ok::<_, ZipError>(entries(archive)),
            Err(e) => opened(bytes@) == Err::<Map<Seq<char>, EntryText>, _>(e),
        },
{
    ZipArchive::new(Cursor::new(bytes))
}

/// `zip::ZipArchive::by_name`, and `read_to_string` on the entry that it finds.
/// The outcome is what the archive holds under that name, and reading an entry
/// leaves what the archive holds as it is.
#[verifier::external_body]
pub(crate) fn read_entry(archive: &mut ZipArchive<Cursor<&[u8]>>, name: &str) -> (r: Entry)
    ensures
        entries(*final(archive)) == entries(*old(archive)),
        entry_view(r) == entries(*old(archive))[name@],
{
    let mut entry = archive.by_name(name)?;
    let mut text = String::new();
    match entry.read_to_string(&mut text) {
        Ok(_) => Ok(Ok(text)),
        Err(e) => Ok(Err(e)),
    }
}

/// The view of an entry shows its text or its error as it is.
pub proof fn entries_are_shown_as_they_are(entry: Entry)
    ensures
        match entry {
            Ok(Ok(text)) => entry_view(entry) == Ok::<_, ZipError>(
                Ok::<_, std::io::Error>(text@),
            ),
            Ok(Err(e)) => entry_view(entry) == Ok::<_, ZipError>(Err::<Seq<char>, _>(e)),
            Err(e) => entry_view(entry) == Err::<Result<Seq<char>, std::io::Error>, _>(e),
        },
{
}

} // verus!
