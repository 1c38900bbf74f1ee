//! Public archive entries: the metadata view that a listing returns.

use crate::model::{DataChunk, FileHeader};
use crate::version::{spec_version, ArchiveVersion};
use vstd::prelude::*;
use vstd::string::*;

verus! {

/// One entry of an archive.
#[derive(Clone, Debug)]
pub struct ArchiveEntry {
    pub header: FileHeader,
    pub chunks: Vec<DataChunk>,
}

/// One entry to add through a batch. Paths are text.
#[derive(Debug, Clone, Copy)]
#[non_exhaustive]
pub enum BatchEntry<'a> {
    /// In-memory payload added under `name`.
    Bytes {
        /// Archive entry name.
        name: &'a str,
        /// Raw member content.
        data: &'a [u8],
        /// Compression level 0..=5.
        level: u8,
    },
    /// File from disk; `name` overrides the archive entry name when set.
    File {
        /// Path on disk.
        path: &'a str,
        /// Optional archive name override.
        name: Option<&'a str>,
        /// Compression level 0..=5.
        level: u8,
    },
    /// Directory header only.
    Directory {
        /// Path on disk.
        path: &'a str,
        /// Optional archive name override.
        name: Option<&'a str>,
    },
}

/// The name of a compression method.
pub open spec fn spec_method_name(method: u8) -> Seq<char> {
    if method == 0 {
        "Store"@
    } else if method == 1 {
        "Fastest"@
    } else if method == 2 {
        "Fast"@
    } else if method == 3 {
        "Normal"@
    } else if method == 4 {
        "Good"@
    } else if method == 5 {
        "Best"@
    } else {
        "Unknown"@
    }
}

/// The name of a compression method.
pub fn method_name(method: u8) -> (s: &'static str)
    ensures
        s@ == spec_method_name(method),
{
    match method {
        0 => "Store",
        1 => "Fastest",
        2 => "Fast",
        3 => "Normal",
        4 => "Good",
        5 => "Best",
        _ => "Unknown",
    }
}

/// The host system on the shared axis, 0 = Windows and 1 = Unix. The legacy
/// containers' code for DOS is 0 and for Windows 2.
pub open spec fn shared_host_os(format_version: u8, host_os: u64) -> u64 {
    if format_version == 3 || format_version == 4 {
        if host_os == 0 || host_os == 2 {
            0
        } else {
            1
        }
    } else {
        host_os
    }
}

/// The host system's display name.
pub open spec fn spec_host_os_name(format_version: u8, host_os: u64) -> Seq<char> {
    if format_version == 4 {
        if host_os == 0 {
            "DOS"@
        } else if host_os == 1 {
            "OS/2"@
        } else if host_os == 2 {
            "Windows"@
        } else if host_os == 3 {
            "Unix"@
        } else {
            "Mac"@
        }
    } else if host_os == 1 {
        "Unix"@
    } else {
        "Windows"@
    }
}

/// The compression version of a member.
pub open spec fn entry_version(h: FileHeader) -> ArchiveVersion {
    if h.format_version == 3 {
        ArchiveVersion::V14
    } else if h.format_version == 4 {
        match spec_version(h.unp_ver) {
            Some(v) => v,
            None => ArchiveVersion::V29,
        }
    } else if h.comp_version == 1 {
        ArchiveVersion::Rar70
    } else {
        ArchiveVersion::Rar50
    }
}

impl ArchiveEntry {
    /// Archive member name (forward-slash separated).
    pub fn name(&self) -> (r: &str)
        ensures
            r@ == self.header.name@,
    {
        self.header.name.as_str()
    }

    /// Uncompressed size in bytes.
    pub fn size(&self) -> (r: u64)
        ensures
            r == self.header.unpacked_size,
    {
        self.header.unpacked_size
    }

    /// On-disk (packed) size in bytes.
    pub fn compressed_size(&self) -> (r: u64)
        ensures
            r == self.header.packed_size,
    {
        self.header.packed_size
    }

    /// Whether this entry is a directory.
    pub fn is_dir(&self) -> (r: bool)
        ensures
            r == self.header.is_directory,
    {
        self.header.is_directory
    }

    /// CRC32 of the uncompressed content, if present.
    pub fn crc32(&self) -> (r: Option<u32>)
        ensures
            r == self.header.crc32_val,
    {
        self.header.crc32_val
    }

    /// Human-readable compression method name.
    pub fn method_name(&self) -> (r: &'static str)
        ensures
            r@ == spec_method_name(self.header.comp_method),
    {
        method_name(self.header.comp_method)
    }

    /// Numeric compression method (0 = store, 1..=5 = level).
    pub fn method(&self) -> (r: u8)
        ensures
            r == self.header.comp_method,
    {
        self.header.comp_method
    }

    /// Modification time in seconds: since the epoch for RAR5, civil seconds of
    /// the stored local time for the older containers.
    pub fn mtime(&self) -> (r: u32)
        ensures
            r == self.header.mtime,
    {
        self.header.mtime
    }

    /// Nanosecond component of the modification time, if stored.
    pub fn mtime_ns(&self) -> (r: Option<u32>)
        ensures
            r == self.header.mtime_ns,
    {
        self.header.mtime_ns
    }

    /// Creation time (seconds, nanoseconds), if stored.
    pub fn ctime(&self) -> (r: Option<(u64, u32)>)
        ensures
            r == self.header.ctime,
    {
        self.header.ctime
    }

    /// Last access time (seconds, nanoseconds), if stored.
    pub fn atime(&self) -> (r: Option<(u64, u32)>)
        ensures
            r == self.header.atime,
    {
        self.header.atime
    }

    /// Host system on the shared axis (0 = Windows, 1 = Unix).
    pub fn host_os(&self) -> (r: u64)
        ensures
            r == shared_host_os(self.header.format_version, self.header.host_os),
    {
        match self.header.format_version {
            3 | 4 => match self.header.host_os {
                0 | 2 => 0,
                _ => 1,
            },
            _ => self.header.host_os,
        }
    }

    /// The raw host code from the header.
    pub fn host_os_raw(&self) -> (r: u64)
        ensures
            r == self.header.host_os,
    {
        self.header.host_os
    }

    /// Display name of the host system.
    pub fn host_os_name(&self) -> (r: &'static str)
        ensures
            r@ == spec_host_os_name(self.header.format_version, self.header.host_os),
    {
        match self.header.format_version {
            4 => match self.header.host_os {
                0 => "DOS",
                1 => "OS/2",
                2 => "Windows",
                3 => "Unix",
                _ => "Mac",
            },
            _ => if self.header.host_os == 1 {
                "Unix"
            } else {
                "Windows"
            },
        }
    }

    /// File attributes (OS-specific).
    pub fn attributes(&self) -> (r: u64)
        ensures
            r == self.header.attributes,
    {
        self.header.attributes
    }

    /// Codec version of the member: `0` = RAR5 (v50), `1` = RAR7 (v70).
    pub fn comp_version(&self) -> (r: u8)
        ensures
            r == self.header.comp_version,
    {
        self.header.comp_version
    }

    /// The member's compression version in the unified version table.
    pub fn version(&self) -> (r: ArchiveVersion)
        ensures
            r == entry_version(self.header),
    {
        match self.header.format_version {
            3 => ArchiveVersion::V14,
            4 => match ArchiveVersion::from_unp_ver(self.header.unp_ver) {
                Some(v) => v,
                None => ArchiveVersion::V29,
            },
            _ => ArchiveVersion::from_v70(self.header.comp_version == 1),
        }
    }

    /// Dictionary setting: the size log of RAR5 members, the window-bits field
    /// of RAR 1.5 to 4.x members.
    pub fn comp_dict_size(&self) -> (r: u8)
        ensures
            r == self.header.comp_dict_size,
    {
        self.header.comp_dict_size
    }

    /// Dictionary size in bytes of RAR7 members.
    pub fn dict_size_bytes(&self) -> (r: Option<u64>)
        ensures
            r == self.header.dict_size_bytes,
    {
        self.header.dict_size_bytes
    }

    /// Owner record, when present.
    pub fn owner(&self) -> (r: Option<&str>)
        ensures
            match (r, self.header.owner) {
                (Some(a), Some(b)) => a@ == b@,
                (None, None) => true,
                _ => false,
            },
    {
        match &self.header.owner {
            Some(s) => Some(s.as_str()),
            None => None,
        }
    }

    /// Whether this member is part of a solid chain.
    pub fn comp_solid(&self) -> (r: bool)
        ensures
            r == self.header.comp_solid,
    {
        self.header.comp_solid
    }

    /// Byte offset of the member's packed data within its volume.
    pub fn data_offset(&self) -> (r: u64)
        ensures
            r == self.header.data_offset,
    {
        self.header.data_offset
    }

    /// The member's data chunks, one per volume.
    pub fn chunks(&self) -> (r: &[DataChunk])
        ensures
            r@ == self.chunks@,
    {
        self.chunks.as_slice()
    }

    /// The member's comment, as text bytes.
    pub fn comment(&self) -> (r: Option<&[u8]>)
        ensures
            match (r, self.header.comment) {
                (Some(a), Some(b)) => a@ == b@,
                (None, None) => true,
                _ => false,
            },
    {
        match &self.header.comment {
            Some(c) => Some(c.as_slice()),
            None => None,
        }
    }
}

} // verus!
