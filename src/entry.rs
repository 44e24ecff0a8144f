use vstd::prelude::*;

verus! {

/// How an entry resolved when it was looked at.
#[derive(Clone, Copy, Debug, PartialEq, Eq, Structural)]
pub enum EntryKind {
    Directory,
    Symlink,
    RegularFile,
    /// The path no longer resolves (a broken symbolic link, a vanished file).
    Missing,
}

/// The order in which selected entries are rendered.
#[derive(Clone, Copy, Debug, PartialEq, Eq, Structural)]
pub enum SortOrder {
    /// The order in which the directory enumerated its entries.
    Natural,
    /// Ascending by full path, compared code point by code point.
    Lexicographic,
    /// `Lexicographic`, reversed.
    LexicographicReversed,
}

/// The unit step of human-readable sizes.
#[derive(Clone, Copy, Debug, PartialEq, Eq, Structural)]
pub enum SizeBase {
    Base1000,
    Base1024,
}

impl SizeBase {
    pub open spec fn spec_value(self) -> u64 {
        match self {
            SizeBase::Base1000 => 1000,
            SizeBase::Base1024 => 1024,
        }
    }

    /// The number of bytes in one step of the unit sequence.
    pub fn value(&self) -> (r: u64)
        ensures
            r == self.spec_value(),
    {
        match self {
            SizeBase::Base1000 => 1000,
            SizeBase::Base1024 => 1024,
        }
    }
}

/// Configuration of one rendering pass.
#[derive(Clone, Copy, Debug, PartialEq, Eq, Structural)]
pub struct DisplayOptions {
    pub show_hidden: bool,
    pub sort: SortOrder,
    pub show_size: bool,
    pub human_readable: bool,
    pub size_base: SizeBase,
}

impl DisplayOptions {
    /// Options from the command-line switches. `reverse` only reverses a
    /// sorted listing: together with `unsorted` the natural order is kept.
    pub fn from_flags(
        all: bool,
        unsorted: bool,
        reverse: bool,
        size: bool,
        human_readable: bool,
        base_1000: bool,
    ) -> (r: DisplayOptions)
        ensures
            r.show_hidden == all,
            r.sort == (if unsorted {
                SortOrder::Natural
            } else if reverse {
                SortOrder::LexicographicReversed
            } else {
                SortOrder::Lexicographic
            }),
            r.show_size == size,
            r.human_readable == human_readable,
            r.size_base == (if base_1000 {
                SizeBase::Base1000
            } else {
                SizeBase::Base1024
            }),
    {
        let sort = if unsorted {
            SortOrder::Natural
        } else if reverse {
            SortOrder::LexicographicReversed
        } else {
            SortOrder::Lexicographic
        };
        let size_base = if base_1000 {
            SizeBase::Base1000
        } else {
            SizeBase::Base1024
        };
        DisplayOptions { show_hidden: all, sort, show_size: size, human_readable, size_base }
    }
}

/// What the filesystem reported of an entry that resolved: whether the path
/// itself is a symbolic link, whether it leads to a directory, its permission
/// bits and its size in bytes.
#[derive(Clone, Copy, Debug, PartialEq, Eq, Structural)]
pub struct RawMetadata {
    pub is_symlink: bool,
    pub is_dir: bool,
    pub mode: u32,
    pub len: u64,
}

/// The execute bits for owner, group and others.
pub const EXECUTE_BITS: u32 = 0o111;

/// Classification of a resolved entry: a symbolic link is a `Symlink` even
/// when it leads to a directory.
pub open spec fn kind_of(metadata: Option<RawMetadata>) -> EntryKind {
    match metadata {
        None => EntryKind::Missing,
        Some(m) => if m.is_symlink {
            EntryKind::Symlink
        } else if m.is_dir {
            EntryKind::Directory
        } else {
            EntryKind::RegularFile
        },
    }
}

/// One entry of a directory listing.
#[derive(Clone, Debug)]
pub struct DirectoryEntry {
    pub display_name: String,
    pub full_path: String,
    pub kind: EntryKind,
    pub size_bytes: Option<u64>,
    pub is_executable: bool,
}

impl DirectoryEntry {
    /// A size is known exactly when the entry resolved.
    pub open spec fn wf(&self) -> bool {
        (self.kind == EntryKind::Missing) == (self.size_bytes is None)
    }

    /// The entry for `full_path`, shown as `display_name`, given what its
    /// metadata lookup returned (`None` when the path did not resolve).
    pub fn resolve(display_name: String, full_path: String, metadata: Option<RawMetadata>) -> (r:
        DirectoryEntry)
        ensures
            r.wf(),
            r.display_name@ == display_name@,
            r.full_path@ == full_path@,
            r.kind == kind_of(metadata),
            r.size_bytes == (match metadata {
                Some(m) => Some(m.len),
                None => None,
            }),
            r.is_executable == (match metadata {
                Some(m) => m.mode & EXECUTE_BITS != 0,
                None => false,
            }),
    {
        match metadata {
            None => DirectoryEntry {
                display_name,
                full_path,
                kind: EntryKind::Missing,
                size_bytes: None,
                is_executable: false,
            },
            Some(m) => {
                let kind = if m.is_symlink {
                    EntryKind::Symlink
                } else if m.is_dir {
                    EntryKind::Directory
                } else {
                    EntryKind::RegularFile
                };
                DirectoryEntry {
                    display_name,
                    full_path,
                    kind,
                    size_bytes: Some(m.len),
                    is_executable: m.mode & EXECUTE_BITS != 0,
                }
            },
        }
    }
}

} // verus!
