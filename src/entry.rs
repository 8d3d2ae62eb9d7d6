use vstd::prelude::*;

use std::sync::Arc;

use crate::path::{normalize_filename, normalized};

verus! {

/// Why an entry could not be built or restored.
#[derive(Debug, Clone, Copy, PartialEq, Eq, Structural)]
pub enum EntryError {
    /// The path holds `..` after a name.
    InvalidInputPath,
    /// A timestamp lies before the epoch.
    Time,
    /// The filesystem refused an operation.
    IO,
}

/// What kind of filesystem item an entry describes.
#[derive(Debug, Clone)]
pub enum FileType {
    File,
    Directory,
    /// A symbolic link, with the path it points at.
    Symlink(String),
}

/// Two kinds agree: the same variant, and for links the same target.
pub open spec fn same_type(a: FileType, b: FileType) -> bool {
    match (a, b) {
        (FileType::File, FileType::File) => true,
        (FileType::Directory, FileType::Directory) => true,
        (FileType::Symlink(x), FileType::Symlink(y)) => x@ == y@,
        _ => false,
    }
}

impl PartialEq for FileType {
    fn eq(&self, other: &FileType) -> (r: bool) {
        match (self, other) {
            (FileType::File, FileType::File) => true,
            (FileType::Directory, FileType::Directory) => true,
            (FileType::Symlink(a), FileType::Symlink(b)) => *a == *b,
            _ => false,
        }
    }
}

impl vstd::std_specs::cmp::PartialEqSpecImpl for FileType {
    open spec fn obeys_eq_spec() -> bool {
        true
    }

    open spec fn eq_spec(&self, other: &FileType) -> bool {
        same_type(*self, *other)
    }
}

impl Default for FileType {
    fn default() -> (r: FileType)
        ensures
            r is File,
    {
        FileType::File
    }
}

impl FileType {
    pub fn is_symlink(&self) -> (r: bool)
        ensures
            r == (self is Symlink),
    {
        matches!(self, FileType::Symlink(_))
    }

    pub fn is_file(&self) -> (r: bool)
        ensures
            r == (self is File),
    {
        matches!(self, FileType::File)
    }

    pub fn is_dir(&self) -> (r: bool)
        ensures
            r == (self is Directory),
    {
        matches!(self, FileType::Directory)
    }
}

/// Which attributes are recorded when an entry is built and applied when it
/// is restored; `false` leaves the filesystem's own value alone.
#[derive(Debug, Clone, Copy, PartialEq, Eq, Structural)]
pub struct PreserveMetadata {
    pub permissions: bool,
    pub ownership: bool,
    pub times: bool,
}

impl Default for PreserveMetadata {
    fn default() -> (r: PreserveMetadata)
        ensures
            !r.permissions && !r.ownership && !r.times,
    {
        PreserveMetadata { permissions: false, ownership: false, times: false }
    }
}

/// Locates one chunk: the object that holds its encrypted, compressed bytes,
/// where it lies in that object, and the digest and tag that check it.
#[derive(Debug, Clone, Copy)]
pub struct ChunkPointer {
    pub object: u64,
    pub offs: u32,
    pub size: u32,
    pub hash: [u8; 32],
    pub tag: [u8; 16],
}

/// What the filesystem reports of an item, as plain values.
#[derive(Debug, Clone)]
pub struct FileMetadata {
    pub mode: u32,
    pub uid: u32,
    pub gid: u32,
    pub readonly: bool,
    pub mtime: i64,
    pub mtime_nsec: i64,
    pub len: u64,
    /// The kind of item, with the target already read for a link.
    pub file_type: FileType,
}

/// One restorable file, directory or link.
#[derive(Debug, Clone)]
pub struct Entry {
    pub unix_secs: u64,
    pub unix_nanos: u32,
    pub unix_perm: Option<u32>,
    pub unix_uid: Option<u32>,
    pub unix_gid: Option<u32>,
    pub readonly: Option<bool>,
    pub file_type: FileType,
    pub size: u64,
    pub name: String,
    /// Where each chunk goes in the file, and the chunk itself.
    pub chunks: Vec<(u64, Arc<ChunkPointer>)>,
}

/// Two entries describe the same item, whatever their chunks.
pub open spec fn same_metadata(a: &Entry, b: &Entry) -> bool {
    a.unix_gid == b.unix_gid && a.unix_uid == b.unix_uid && a.unix_secs == b.unix_secs
        && a.unix_nanos == b.unix_nanos && a.unix_perm == b.unix_perm && a.size == b.size
        && a.readonly == b.readonly && a.name@ == b.name@ && same_type(a.file_type, b.file_type)
}

impl PartialEq for Entry {
    fn eq(&self, other: &Entry) -> (r: bool) {
        self.unix_gid == other.unix_gid && self.unix_uid == other.unix_uid && self.unix_secs
            == other.unix_secs && self.unix_nanos == other.unix_nanos && self.unix_perm
            == other.unix_perm && self.size == other.size && self.readonly == other.readonly
            && self.name == other.name && self.file_type == other.file_type
    }
}

impl vstd::std_specs::cmp::PartialEqSpecImpl for Entry {
    open spec fn obeys_eq_spec() -> bool {
        true
    }

    open spec fn eq_spec(&self, other: &Entry) -> bool {
        same_metadata(self, other)
    }
}

/// `Some(v)` where the attribute is kept.
pub open spec fn kept<T>(flag: bool, v: T) -> Option<T> {
    if flag {
        Some(v)
    } else {
        None
    }
}

fn keep<T>(flag: bool, v: T) -> (r: Option<T>)
    ensures
        r == kept(flag, v),
{
    if flag {
        Some(v)
    } else {
        None
    }
}

/// The entry that `from_metadata` builds, once the path is normalized to `name`.
pub open spec fn entry_of(m: FileMetadata, name: Seq<char>, p: PreserveMetadata, e: Entry) -> bool {
    &&& e.unix_secs == (if p.times { m.mtime as u64 } else { 0 })
    &&& e.unix_nanos == (if p.times { m.mtime_nsec as u32 } else { 0 })
    &&& e.unix_perm == kept(p.permissions, m.mode)
    &&& e.unix_uid == kept(p.ownership, m.uid)
    &&& e.unix_gid == kept(p.ownership, m.gid)
    &&& e.readonly == kept(p.permissions, m.readonly)
    &&& same_type(e.file_type, m.file_type)
    &&& e.size == (if m.file_type is File {
        m.len
    } else {
        0
    })
    &&& e.name@ == name
    &&& e.chunks@.len() == 0
}

impl Entry {
    /// Describes the item at `path` from what the filesystem reported of it,
    /// keeping only the attributes that `preserve` asks for. Only a regular
    /// file has content: a directory or a link has size 0.
    pub fn from_metadata(metadata: FileMetadata, path: &str, preserve: &PreserveMetadata) -> (r:
        Result<Entry, EntryError>)
        ensures
            match normalized(path@) {
                Some(name) => r is Ok && entry_of(metadata, name, *preserve, r->Ok_0),
                None => r == Err::<Entry, EntryError>(EntryError::InvalidInputPath),
            },
    {
        let (unix_secs, unix_nanos) = if preserve.times {
            (metadata.mtime as u64, metadata.mtime_nsec as u32)
        } else {
            (0u64, 0u32)
        };
        let name = match normalize_filename(path) {
            Ok(n) => n,
            Err(e) => return Err(e),
        };
        let file_type = match &metadata.file_type {
            FileType::File => FileType::File,
            FileType::Directory => FileType::Directory,
            FileType::Symlink(t) => FileType::Symlink(t.clone()),
        };
        Ok(
            Entry {
                unix_secs,
                unix_nanos,
                unix_perm: keep(preserve.permissions, metadata.mode),
                unix_uid: keep(preserve.ownership, metadata.uid),
                unix_gid: keep(preserve.ownership, metadata.gid),
                readonly: keep(preserve.permissions, metadata.readonly),
                file_type,
                size: if metadata.file_type.is_file() {
                    metadata.len
                } else {
                    0
                },
                name,
                chunks: Vec::new(),
            },
        )
    }
}


/// How the item itself is brought into being.
#[derive(Debug, Clone)]
pub enum CreateAction {
    /// Create a directory.
    Directory,
    /// Create or open a regular file and size it to `size` bytes.
    File { size: u64 },
    /// Create a link pointing at `target`.
    Symlink { target: String },
}

/// What restoring an entry's metadata does, in order: create the item, open
/// it (without following a link where `no_follow` holds), then apply the
/// permission bits, the owner and group, and the modification time that are
/// present.
#[derive(Debug, Clone)]
pub struct MetadataPlan {
    pub create: CreateAction,
    pub no_follow: bool,
    pub permissions: Option<u32>,
    pub uid: Option<u32>,
    pub gid: Option<u32>,
    pub mtime: Option<(u64, u32)>,
    /// The opened file is handed back to the caller.
    pub keep_open: bool,
}

impl Entry {
    /// Decides how the item is restored under `preserve`.
    pub fn restore_plan(&self, preserve: &PreserveMetadata) -> (r: MetadataPlan)
        ensures
            match self.file_type {
                FileType::Directory => r.create is Directory,
                FileType::File => r.create == (CreateAction::File { size: self.size }),
                FileType::Symlink(t) => r.create is Symlink && r.create->Symlink_target@ == t@,
            },
            r.no_follow == (self.file_type is Symlink),
            r.permissions == (if preserve.permissions {
                self.unix_perm
            } else {
                None
            }),
            r.uid == (if preserve.ownership {
                self.unix_uid
            } else {
                None
            }),
            r.gid == (if preserve.ownership {
                self.unix_gid
            } else {
                None
            }),
            r.mtime == (if preserve.times {
                Some((self.unix_secs, self.unix_nanos))
            } else {
                None
            }),
            r.keep_open == (self.file_type is File),
    {
        let create = match &self.file_type {
            FileType::Directory => CreateAction::Directory,
            FileType::File => CreateAction::File { size: self.size },
            FileType::Symlink(t) => CreateAction::Symlink { target: t.clone() },
        };
        MetadataPlan {
            create,
            no_follow: self.file_type.is_symlink(),
            permissions: if preserve.permissions {
                self.unix_perm
            } else {
                None
            },
            uid: if preserve.ownership {
                self.unix_uid
            } else {
                None
            },
            gid: if preserve.ownership {
                self.unix_gid
            } else {
                None
            },
            mtime: if preserve.times {
                Some((self.unix_secs, self.unix_nanos))
            } else {
                None
            },
            keep_open: self.file_type.is_file(),
        }
    }
}

} // verus!
