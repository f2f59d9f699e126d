//! The data model of one archived object and the error taxonomy shared by
//! the encoder, the decoder and the orchestrators.

use vstd::prelude::*;

verus! {

/// Kind of object stored in an archive entry.
#[derive(Clone, Copy, PartialEq, Eq, Structural, Debug)]
pub enum EntryKind {
    File,
    Directory,
    Symlink,
}

/// Mathematical model of one archive entry, used by all contracts.
pub ghost struct EntryModel {
    /// Slash-separated path relative to the pack root, as raw bytes.
    pub path: Seq<u8>,
    pub kind: EntryKind,
    /// Permission/attribute bits, best effort.
    pub mode: u32,
    /// Modification time, seconds since the epoch (may be negative).
    pub mtime_sec: i64,
    /// Nanosecond part of the modification time.
    pub mtime_nsec: u32,
    /// Raw bytes for a file, the link target for a symlink, empty for a
    /// directory.
    pub content: Seq<u8>,
}

/// One archived object: a file, a directory or a symlink, with its
/// metadata and stored bytes.
#[derive(Debug, PartialEq, Eq)]
pub struct Entry {
    pub path: Vec<u8>,
    pub kind: EntryKind,
    pub mode: u32,
    pub mtime_sec: i64,
    pub mtime_nsec: u32,
    pub content: Vec<u8>,
}

impl View for Entry {
    type V = EntryModel;

    open spec fn view(&self) -> EntryModel {
        EntryModel {
            path: self.path@,
            kind: self.kind,
            mode: self.mode,
            mtime_sec: self.mtime_sec,
            mtime_nsec: self.mtime_nsec,
            content: self.content@,
        }
    }
}

/// Structural well-formedness of an entry: its path length fits the
/// 16-bit length field of the container format, its content length fits
/// the 64-bit size field, and a directory stores no content bytes.
pub open spec fn entry_wf(e: EntryModel) -> bool {
    &&& e.path.len() <= 0xFFFF
    &&& e.content.len() < 0x1_0000_0000_0000_0000
    &&& (e.kind is Directory ==> e.content.len() == 0)
}

/// The models of a sequence of entries.
pub open spec fn views(s: Seq<Entry>) -> Seq<EntryModel> {
    s.map_values(|e: Entry| e@)
}

/// Why a pack or unpack operation failed.
#[derive(Clone, Copy, PartialEq, Eq, Structural, Debug)]
pub enum ArchiveError {
    /// The stream is malformed or truncated.
    FormatError,
    /// The stream's format version is not supported.
    VersionError,
    /// An entry's path would resolve outside the destination.
    PathSafetyError,
    /// The trailing checksum does not match the stream contents.
    IntegrityError,
}

/// Checks structural well-formedness of one entry.
pub fn entry_is_wf(e: &Entry) -> (r: bool)
    ensures
        r == entry_wf(e@),
{
    let cl = e.content.len();
    e.path.len() <= 0xFFFF && (!matches!(e.kind, EntryKind::Directory) || cl == 0)
}

} // verus!
