//! The write plan of one member: everything a writer needs besides the
//! payload bytes.

use crate::model::FileHeader;
use vstd::prelude::*;
use vstd::slice::slice_to_vec;
use vstd::string::*;

verus! {

/// File header fields and extra records of a member to be written.
pub struct MemberPlan {
    pub name: String,
    pub unpacked_size: u64,
    /// Header checksum: the plaintext CRC, or its MAC when encrypted.
    pub file_crc: u32,
    pub method: u8,
    pub dict_size_log: u8,
    pub dict_size_bytes: Option<u64>,
    /// Encryption and hash records, and the caller's time and owner records.
    pub extra_data: Vec<u8>,
    pub attrs: u64,
    pub mtime: u32,
    pub solid: bool,
    /// File hash (MACed when encrypted).
    pub stored_hash: Option<[u8; 32]>,
}

/// The bytes of an optional record.
pub open spec fn record_or_nothing(r: Option<Seq<u8>>) -> Seq<u8> {
    match r {
        Some(s) => s,
        None => Seq::empty(),
    }
}

impl MemberPlan {
    /// Append the caller's time and owner records.
    pub fn push_extra(&mut self, time_extra: Option<&[u8]>, owner_extra: Option<&[u8]>)
        ensures
            final(self).extra_data@ == old(self).extra_data@ + record_or_nothing(
                match time_extra {
                    Some(t) => Some(t@),
                    None => None,
                },
            ) + record_or_nothing(
                match owner_extra {
                    Some(t) => Some(t@),
                    None => None,
                },
            ),
            *final(self) == (MemberPlan { extra_data: final(self).extra_data, ..*old(self) }),
    {
        let ghost before = self.extra_data@;
        if let Some(time) = time_extra {
            self.extra_data.extend_from_slice(time);
        }
        if let Some(owner) = owner_extra {
            self.extra_data.extend_from_slice(owner);
        }
        assert(self.extra_data@ =~= before + record_or_nothing(
            match time_extra {
                Some(t) => Some(t@),
                None => None,
            },
        ) + record_or_nothing(
            match owner_extra {
                Some(t) => Some(t@),
                None => None,
            },
        ));
    }

    /// The file header `h` is that of the plan.
    pub open spec fn describes(
        self,
        h: FileHeader,
        packed_size: u64,
        mtime: u32,
        file_flags: u64,
        host_os: u64,
    ) -> bool {
        &&& h.name@ == self.name@
        &&& h.unpacked_size == self.unpacked_size && h.packed_size == packed_size
        &&& h.attributes == self.attrs && h.mtime == mtime
        &&& h.crc32_val == if self.stored_hash is Some {
            None
        } else {
            Some(self.file_crc)
        }
        &&& h.hash_type == if self.stored_hash is Some {
            0u8
        } else {
            255u8
        }
        &&& h.hash_value == self.stored_hash
        &&& h.comp_method == self.method && h.comp_solid == self.solid
        &&& h.comp_dict_size == self.dict_size_log && h.dict_size_bytes == self.dict_size_bytes
        &&& h.host_os == host_os && h.file_flags == file_flags
        &&& h.extra_data@ == self.extra_data@
        &&& h.comp_version == 0 && h.flags == 0 && !h.is_directory && h.data_offset == 0
        &&& h.format_version == 0 && h.mtime_ns is None && h.ctime is None && h.atime is None
        &&& h.owner is None && h.group is None && h.version is None && h.unp_ver == 0
        &&& h.salt is None && h.legacy_head_crc is None && h.comment is None
    }

    /// The member's file header. A file hash replaces the CRC32 field.
    pub fn file_header(&self, packed_size: u64, mtime: u32, file_flags: u64, host_os: u64) -> (h:
        FileHeader)
        ensures
            self.describes(h, packed_size, mtime, file_flags, host_os),
    {
        let mut h: FileHeader = Default::default();
        h.name = self.name.clone();
        h.unpacked_size = self.unpacked_size;
        h.packed_size = packed_size;
        h.attributes = self.attrs;
        h.mtime = mtime;
        h.crc32_val = match self.stored_hash {
            Some(_) => None,
            None => Some(self.file_crc),
        };
        h.hash_type = match self.stored_hash {
            Some(_) => 0,
            None => 255,
        };
        h.hash_value = self.stored_hash;
        h.comp_method = self.method;
        h.comp_solid = self.solid;
        h.comp_dict_size = self.dict_size_log;
        h.dict_size_bytes = self.dict_size_bytes;
        h.host_os = host_os;
        h.file_flags = file_flags;
        h.extra_data = slice_to_vec(self.extra_data.as_slice());
        h
    }
}

} // verus!
