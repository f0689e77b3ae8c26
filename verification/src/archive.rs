//! Reading ZIP archives that are held in memory.
//!
//! The archive itself is parsed and decoded by the `zip` crate. What this
//! module knows of an archive is its model: for each entry, in the order of
//! the archive's directory, the name and the decoded bytes.

use crate::failure::{is_refusal, Failure};
use crate::text::names_of;
use vstd::prelude::*;

verus! {

#[verifier::external_type_specification]
#[verifier::external_body]
#[verifier::reject_recursive_types(R)]
pub struct ExZipArchive<R>(zip::ZipArchive<R>);

#[verifier::external_type_specification]
#[verifier::external_body]
#[verifier::reject_recursive_types(T)]
pub struct ExCursor<T>(std::io::Cursor<T>);

#[verifier::external_type_specification]
#[verifier::external_body]
pub struct ExZipError(zip::result::ZipError);

/// What an open archive holds: for each entry, in directory order, its name
/// and its decoded bytes, `None` where the entry cannot be decoded.
pub uninterp spec fn zip_entries(
    archive: zip::ZipArchive<std::io::Cursor<Vec<u8>>>,
) -> Seq<(Seq<char>, Option<Seq<u8>>)>;

/// What `zip` makes of a file's bytes: the entries of the archive, or `None`
/// where the bytes are no archive that it can open.
pub uninterp spec fn zip_contents(bytes: Seq<u8>) -> Option<Seq<(Seq<char>, Option<Seq<u8>>)>>;

/// `zip::ZipArchive::new` on a cursor over `bytes`. It reads the central
/// directory and fails where it finds none that it can parse. The outcome
/// depends on the bytes alone: the contract names it and ties the entries of
/// the archive that comes back to that name.
#[verifier::external_body]
fn zip_open(
    bytes: Vec<u8>,
) -> (r: Result<zip::ZipArchive<std::io::Cursor<Vec<u8>>>, zip::result::ZipError>)
    ensures
        match r {
            Ok(archive) => zip_contents(bytes@) == Some(zip_entries(archive)),
            Err(_) => zip_contents(bytes@) is None,
        },
{
    zip::ZipArchive::new(std::io::Cursor::new(bytes))
}

/// `zip::ZipArchive::len`: the number of entries in the directory.
#[verifier::external_body]
fn zip_len(archive: &zip::ZipArchive<std::io::Cursor<Vec<u8>>>) -> (n: usize)
    ensures
        n == zip_entries(*archive).len(),
{
    archive.len()
}

/// `zip::ZipArchive::name_for_index`: the name of the entry at `index`, and
/// `None` exactly when the directory has no such entry.
#[verifier::external_body]
fn zip_name(
    archive: &zip::ZipArchive<std::io::Cursor<Vec<u8>>>,
    index: usize,
) -> (r: Option<String>)
    ensures
        match r {
            Some(s) => index < zip_entries(*archive).len() && s@ == zip_entries(
                *archive,
            )[index as int].0,
            None => index >= zip_entries(*archive).len(),
        },
{
    archive.name_for_index(index).map(|s| s.to_string())
}

/// `zip::ZipArchive::by_index`, then `read_to_end` on the entry it hands out:
/// the decoded bytes of the entry at `index`. Either step may fail: no such
/// entry, an entry that is encrypted or packed by a method that is not
/// supported, data that does not decode, or a checksum that does not match.
/// The archive holds afterwards what it held before.
#[verifier::external_body]
fn zip_read(
    archive: &mut zip::ZipArchive<std::io::Cursor<Vec<u8>>>,
    index: usize,
) -> (r: Result<Vec<u8>, zip::result::ZipError>)
    ensures
        zip_entries(*final(archive)) == zip_entries(*old(archive)),
        match r {
            Ok(data) => index < zip_entries(*old(archive)).len() && zip_entries(
                *old(archive),
            )[index as int].1 == Some(data@),
            Err(_) => index >= zip_entries(*old(archive)).len() || zip_entries(
                *old(archive),
            )[index as int].1 is None,
        },
{
    let mut file = archive.by_index(index)?;
    let mut data: Vec<u8> = Vec::new();
    std::io::Read::read_to_end(&mut file, &mut data)?;
    Ok(data)
}

/// The message of a `zip::result::ZipError`, as its `to_string` gives it.
#[verifier::external_body]
fn zip_error_text(error: &zip::result::ZipError) -> (text: String) {
    error.to_string()
}

/// A name that denotes a directory: it ends in `/`.
pub open spec fn is_directory_name(name: Seq<char>) -> bool {
    name.len() > 0 && name.last() == '/'
}

/// Decides [`is_directory_name`].
pub fn names_directory(name: &str) -> (r: bool)
    ensures
        r == is_directory_name(name@),
{
    let chars = crate::text::chars_of(name);
    chars.len() > 0 && chars[chars.len() - 1] == '/'
}

/// One entry of an archive, as far as its header tells.
#[derive(Debug, Clone, PartialEq, Eq)]
pub struct ArchiveEntry {
    pub name: String,
    pub is_directory: bool,
}

impl View for ArchiveEntry {
    type V = (Seq<char>, bool);

    open spec fn view(&self) -> (Seq<char>, bool) {
        (self.name@, self.is_directory)
    }
}

/// The entries as pairs of name and kind, in order.
pub open spec fn entry_views(entries: Seq<ArchiveEntry>) -> Seq<(Seq<char>, bool)> {
    entries.map_values(|e: ArchiveEntry| e@)
}

/// A ZIP archive that was opened from bytes in memory. Entries are reached
/// by index, in any order and as often as wanted.
pub struct ZipReader {
    archive: zip::ZipArchive<std::io::Cursor<Vec<u8>>>,
}

impl ZipReader {
    /// The model of the archive: name and decoded bytes of each entry.
    pub closed spec fn entries(&self) -> Seq<(Seq<char>, Option<Seq<u8>>)> {
        zip_entries(self.archive)
    }

    /// The names of the entries, in directory order.
    pub open spec fn names(&self) -> Seq<Seq<char>> {
        self.entries().map_values(|e: (Seq<char>, Option<Seq<u8>>)| e.0)
    }

    /// Name and kind of each entry, in directory order.
    pub open spec fn listing(&self) -> Seq<(Seq<char>, bool)> {
        self.names().map_values(|n: Seq<char>| (n, is_directory_name(n)))
    }

    /// Opens the archive that `bytes` hold. Bytes that are no archive are
    /// reported as unreadable, with the reason.
    pub fn open(bytes: Vec<u8>) -> (r: Result<ZipReader, Failure>)
        ensures
            match zip_contents(bytes@) {
                Some(entries) => r matches Ok(reader) && reader.entries() == entries,
                None => r matches Err(e) && e is Unreadable,
            },
    {
        match zip_open(bytes) {
            Ok(archive) => Ok(ZipReader { archive }),
            Err(e) => Err(Failure::Unreadable { cause: zip_error_text(&e) }),
        }
    }

    /// The number of entries.
    pub fn len(&self) -> (n: usize)
        ensures
            n == self.entries().len(),
    {
        zip_len(&self.archive)
    }

    /// The entry at `index`, if there is one. An entry is a directory when
    /// its name ends in `/`.
    pub fn entry(&self, index: usize) -> (entry: Option<ArchiveEntry>)
        ensures
            index < self.entries().len() ==> (entry matches Some(e) && e@
                == self.listing()[index as int]),
            index >= self.entries().len() ==> entry is None,
    {
        match zip_name(&self.archive, index) {
            Some(name) => {
                let is_directory: bool = names_directory(name.as_str());
                Some(ArchiveEntry { name, is_directory })
            },
            None => None,
        }
    }

    /// All entries, in directory order.
    pub fn list(&self) -> (entries: Vec<ArchiveEntry>)
        ensures
            entry_views(entries@) == self.listing(),
    {
        let n: usize = self.len();
        let mut entries: Vec<ArchiveEntry> = Vec::new();
        let mut i: usize = 0;
        while i < n
            invariant
                n == self.entries().len(),
                i <= n,
                entry_views(entries@) == self.listing().take(i as int),
            decreases n - i,
        {
            let ghost before = entries@;
            match self.entry(i) {
                Some(e) => {
                    entries.push(e);
                    assert(entry_views(entries@) =~= entry_views(before).push(e@));
                },
                None => {},
            }
            assert(self.listing().take(i + 1) =~= self.listing().take(i as int).push(
                self.listing()[i as int],
            ));
            i += 1;
        }
        assert(self.listing().take(n as int) =~= self.listing());
        entries
    }

    /// The names of all entries, in directory order.
    pub fn entry_names(&self) -> (names: Vec<String>)
        ensures
            names_of(names@) == self.names(),
    {
        let n: usize = self.len();
        let mut names: Vec<String> = Vec::new();
        let mut i: usize = 0;
        while i < n
            invariant
                n == self.entries().len(),
                i <= n,
                names_of(names@) == self.names().take(i as int),
            decreases n - i,
        {
            let ghost before = names@;
            match zip_name(&self.archive, i) {
                Some(name) => {
                    names.push(name);
                    assert(names_of(names@) =~= names_of(before).push(name@));
                },
                None => {},
            }
            assert(self.names().take(i + 1) =~= self.names().take(i as int).push(
                self.names()[i as int],
            ));
            i += 1;
        }
        assert(self.names().take(n as int) =~= self.names());
        names
    }

    /// The decoded bytes of the entry at `index`. An index past the last
    /// entry is invalid input; an entry that does not decode is corrupt. The
    /// archive is left as it was.
    pub fn read(&mut self, index: usize) -> (r: Result<Vec<u8>, Failure>)
        ensures
            final(self).entries() == old(self).entries(),
            index >= old(self).entries().len() ==> (r matches Err(e) && is_refusal(
                e,
                "no entry at this index"@,
            )),
            index < old(self).entries().len() ==> match old(self).entries()[index as int].1 {
                Some(bytes) => r matches Ok(data) && data@ == bytes,
                None => r matches Err(Failure::CorruptEntry { index: i, .. }) && i == index,
            },
    {
        if index >= zip_len(&self.archive) {
            return Err(Failure::InvalidInput { detail: "no entry at this index".to_owned() });
        }
        match zip_read(&mut self.archive, index) {
            Ok(data) => Ok(data),
            Err(e) => Err(Failure::CorruptEntry { index, cause: zip_error_text(&e) }),
        }
    }
}

} // verus!
