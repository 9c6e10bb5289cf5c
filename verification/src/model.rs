//! Shared data model: the records the decoder hands to its caller and
//! the error conditions that abort a pass.

use vstd::prelude::*;

verus! {

/// A condition that aborts an indexing pass. The pass produces either a
/// complete tree or one of these; no partial tree is handed out.
#[derive(Clone, Copy, Debug, PartialEq, Eq, Structural)]
pub enum ExfatError {
    /// A buffer was shorter than the structure read from it.
    ShortRead,
    /// The boot sector's filesystem-name field is not the exFAT literal.
    FilesystemNameMismatch,
    /// The boot sector does not end in the 0x55 0xAA signature.
    BootSignatureMismatch,
    /// A boot-sector shift field lies outside the ranges the exFAT
    /// format allows, so no cluster address could be trusted.
    GeometryOutOfRange,
    /// A FAT lookup addressed an entry outside the loaded table.
    FatLookupOutOfBounds,
    /// A chain held the zero entry where a cluster number or the
    /// end-of-chain marker was expected.
    CorruptChain,
    /// A cluster chain or directory graph revisited a cluster.
    CycleDetected,
    /// A directory-entry set did not have the declared shape.
    StructuralMismatch,
    /// A cluster address resolved outside the device extent.
    AddressOutOfRange,
    /// The caller's directory-table offset would overflow an index.
    IndexOverflow,
}

/// One reconstructed file or directory, as handed to the caller:
/// timestamps are seconds since the Unix epoch, with 0 the "unknown"
/// sentinel, and `parent` indexes the directory table.
#[derive(Debug, Clone, PartialEq)]
pub struct File {
    pub name: String,
    pub parent: u32,
    pub size: u64,
    pub is_dir: bool,
    pub create_timestamp: i64,
    pub last_modified_timestamp: i64,
    pub first_cluster: u32,
    pub contiguous: bool,
}

/// One directory-table entry: the fully qualified path prefix, with
/// its trailing separator, that descriptors under it extend.
#[derive(Debug, Clone, PartialEq)]
pub struct Directory {
    pub name: String,
}

/// One configured volume: the device to read, the mount point that
/// seeds the root path, and the ignore-prefixes for the pass.
#[derive(Debug, Clone, PartialEq)]
pub struct Drive {
    pub fs: SupportedFilesystems,
    pub drive: String,
    pub mounted_at: String,
    pub ignored_dirs: Vec<String>,
}

/// Filesystems the indexer can decode.
#[derive(Debug, Clone, Copy, PartialEq, Eq, Structural)]
pub enum SupportedFilesystems {
    Exfat,
}

/// Reads a filesystem name. Every name maps to exFAT, the only
/// filesystem the decoder supports, which is also the default for
/// anything unrecognized.
pub fn string_to_fs(_string: &String) -> (r: SupportedFilesystems)
    ensures
        r == SupportedFilesystems::Exfat,
{
    SupportedFilesystems::Exfat
}

/// User-facing settings of the search utility around the decoder.
#[derive(Debug, Clone, PartialEq)]
pub struct Settings {
    /// file, path, size, date modified, date created
    pub columns: Vec<u16>,
    pub sort_in_use: Sort,
    pub index_on_startup: bool,
    pub index_every_minutes: u32,
    pub instant_search: bool,
    pub journal: bool,
    pub ignore_case: bool,
    pub search_full_path: bool,
}

/// Orderings the result table can be sorted by.
#[derive(Debug, Clone, Copy, PartialEq, Eq, Structural)]
pub enum Sort {
    DateCreatedAscending,
    DateCreatedDescending,
    DateModifiedAscending,
    DateModifiedDescending,
    SizeAscending,
    SizeDescending,
    PathAscending,
    PathDescending,
    FileAscending,
    FileDescending,
}

/// Reads a sort order by its name, with the default for anything
/// unrecognized.
pub fn string_to_sort(string: &String) -> (r: Sort)
    ensures
        r == (if string@ == "DateCreatedAscending"@ {
            Sort::DateCreatedAscending
        } else if string@ == "DateCreatedDescending"@ {
            Sort::DateCreatedDescending
        } else if string@ == "DateModifiedAscending"@ {
            Sort::DateModifiedAscending
        } else if string@ == "DateModifiedDescending"@ {
            Sort::DateModifiedDescending
        } else if string@ == "SizeAscending"@ {
            Sort::SizeAscending
        } else if string@ == "SizeDescending"@ {
            Sort::SizeDescending
        } else if string@ == "PathAscending"@ {
            Sort::PathAscending
        } else if string@ == "PathDescending"@ {
            Sort::PathDescending
        } else if string@ == "FileAscending"@ {
            Sort::FileAscending
        } else if string@ == "FileDescending"@ {
            Sort::FileDescending
        } else {
            Sort::DateCreatedAscending
        }),
{
    if string.eq(&String::from_str("DateCreatedAscending")) {
        Sort::DateCreatedAscending
    } else if string.eq(&String::from_str("DateCreatedDescending")) {
        Sort::DateCreatedDescending
    } else if string.eq(&String::from_str("DateModifiedAscending")) {
        Sort::DateModifiedAscending
    } else if string.eq(&String::from_str("DateModifiedDescending")) {
        Sort::DateModifiedDescending
    } else if string.eq(&String::from_str("SizeAscending")) {
        Sort::SizeAscending
    } else if string.eq(&String::from_str("SizeDescending")) {
        Sort::SizeDescending
    } else if string.eq(&String::from_str("PathAscending")) {
        Sort::PathAscending
    } else if string.eq(&String::from_str("PathDescending")) {
        Sort::PathDescending
    } else if string.eq(&String::from_str("FileAscending")) {
        Sort::FileAscending
    } else if string.eq(&String::from_str("FileDescending")) {
        Sort::FileDescending
    } else {
        Sort::DateCreatedAscending
    }
}

} // verus!
