//! The format-neutral member model.

use vstd::prelude::*;
use vstd::string::*;

verus! {

/// One member's metadata, whatever container it comes from.
#[derive(Clone, Debug)]
pub struct FileHeader {
    /// Member name, forward-slash separated.
    pub name: String,
    pub unpacked_size: u64,
    pub packed_size: u64,
    pub attributes: u64,
    /// Modification time in seconds.
    pub mtime: u32,
    pub crc32_val: Option<u32>,
    pub hash_type: u8,
    pub hash_value: Option<[u8; 32]>,
    /// 0 = store, 1..=5 = level.
    pub comp_method: u8,
    /// 0 = RAR5 (v50), 1 = RAR7 (v70).
    pub comp_version: u8,
    pub comp_solid: bool,
    pub comp_dict_size: u8,
    pub host_os: u64,
    /// Header flags as stored.
    pub flags: u64,
    pub file_flags: u64,
    pub extra_data: Vec<u8>,
    pub is_directory: bool,
    /// Where the member's data starts.
    pub data_offset: u64,
    /// 3 = RAR 1.3/1.4, 4 = RAR 1.5 to 4.x, others RAR5.
    pub format_version: u8,
    pub dict_size_bytes: Option<u64>,
    pub mtime_ns: Option<u32>,
    pub ctime: Option<(u64, u32)>,
    pub atime: Option<(u64, u32)>,
    pub owner: Option<String>,
    pub group: Option<String>,
    pub version: Option<u64>,
    pub unp_ver: u8,
    pub salt: Option<[u8; 8]>,
    pub legacy_head_crc: Option<u16>,
    pub comment: Option<Vec<u8>>,
}

impl FileHeader {
    /// Nothing is set.
    pub open spec fn is_blank(self) -> bool {
        &&& self.name@.len() == 0
        &&& self.unpacked_size == 0 && self.packed_size == 0 && self.attributes == 0
        &&& self.mtime == 0 && self.crc32_val is None
        &&& self.hash_type == 0 && self.hash_value is None
        &&& self.comp_method == 0 && self.comp_version == 0 && !self.comp_solid
        &&& self.comp_dict_size == 0 && self.host_os == 0
        &&& self.flags == 0 && self.file_flags == 0 && self.extra_data@.len() == 0
        &&& !self.is_directory && self.data_offset == 0 && self.format_version == 0
        &&& self.dict_size_bytes is None && self.mtime_ns is None
        &&& self.ctime is None && self.atime is None
        &&& self.owner is None && self.group is None && self.version is None
        &&& self.unp_ver == 0 && self.salt is None && self.legacy_head_crc is None
        &&& self.comment is None
    }
}

impl Default for FileHeader {
    fn default() -> (r: FileHeader)
        ensures
            r.is_blank(),
    {
        FileHeader {
            name: String::new(),
            unpacked_size: 0,
            packed_size: 0,
            attributes: 0,
            mtime: 0,
            crc32_val: None,
            hash_type: 0,
            hash_value: None,
            comp_method: 0,
            comp_version: 0,
            comp_solid: false,
            comp_dict_size: 0,
            host_os: 0,
            flags: 0,
            file_flags: 0,
            extra_data: Vec::new(),
            is_directory: false,
            data_offset: 0,
            format_version: 0,
            dict_size_bytes: None,
            mtime_ns: None,
            ctime: None,
            atime: None,
            owner: None,
            group: None,
            version: None,
            unp_ver: 0,
            salt: None,
            legacy_head_crc: None,
            comment: None,
        }
    }
}

/// One piece of a member's data, in one volume.
#[derive(Clone, Debug)]
pub struct DataChunk {
    pub volume_index: usize,
    pub data_offset: u64,
    pub packed_size: u64,
    pub crc32_val: Option<u32>,
    pub is_final: bool,
    pub extra_data: Vec<u8>,
}

} // verus!
