//! Archive and member versions.

use vstd::prelude::*;

verus! {

/// Member compression versions, over all container families.
#[derive(Debug, Clone, Copy, PartialEq, Eq, Structural)]
pub enum ArchiveVersion {
    V14,
    V15,
    V20,
    V26,
    V29,
    V36,
    Rar50,
    Rar70,
}

/// The version of a RAR 1.5 to 4.x member's version field.
pub open spec fn spec_version(unp_ver: u8) -> Option<ArchiveVersion> {
    if unp_ver == 15 {
        Some(ArchiveVersion::V15)
    } else if unp_ver == 20 {
        Some(ArchiveVersion::V20)
    } else if unp_ver == 26 {
        Some(ArchiveVersion::V26)
    } else if unp_ver == 29 {
        Some(ArchiveVersion::V29)
    } else if unp_ver == 36 {
        Some(ArchiveVersion::V36)
    } else {
        None
    }
}

impl ArchiveVersion {
    /// Whether members use the RAR7 distance code table.
    pub open spec fn spec_extra_dist(self) -> bool {
        self == ArchiveVersion::Rar70
    }

    /// Whether members use the RAR7 distance code table.
    pub fn extra_dist(self) -> (r: bool)
        ensures
            r == self.spec_extra_dist(),
    {
        match self {
            ArchiveVersion::Rar70 => true,
            _ => false,
        }
    }

    /// The version of a RAR 1.5 to 4.x member's version field.
    pub fn from_unp_ver(unp_ver: u8) -> (r: Option<ArchiveVersion>)
        ensures
            r == spec_version(unp_ver),
    {
        match unp_ver {
            15 => Some(ArchiveVersion::V15),
            20 => Some(ArchiveVersion::V20),
            26 => Some(ArchiveVersion::V26),
            29 => Some(ArchiveVersion::V29),
            36 => Some(ArchiveVersion::V36),
            _ => None,
        }
    }

    /// The version of a RAR5 container's member.
    pub fn from_v70(v70: bool) -> (r: ArchiveVersion)
        ensures
            r == if v70 {
                ArchiveVersion::Rar70
            } else {
                ArchiveVersion::Rar50
            },
    {
        if v70 {
            ArchiveVersion::Rar70
        } else {
            ArchiveVersion::Rar50
        }
    }
}

/// The codecs of RAR 1.5 to 4.x members.
#[derive(Debug, Clone, Copy, PartialEq, Eq, Structural)]
pub enum LegacyCodec {
    Rar15,
    Rar20,
    Rar29,
}

/// The codec of a member version.
pub open spec fn spec_codec(unp_ver: u8) -> Option<LegacyCodec> {
    if unp_ver == 15 {
        Some(LegacyCodec::Rar15)
    } else if unp_ver == 20 || unp_ver == 26 {
        Some(LegacyCodec::Rar20)
    } else if unp_ver == 29 || unp_ver == 36 {
        Some(LegacyCodec::Rar29)
    } else {
        None
    }
}

impl LegacyCodec {
    /// The codec of a member version.
    pub fn from_unp_ver(unp_ver: u8) -> (r: Option<LegacyCodec>)
        ensures
            r == spec_codec(unp_ver),
    {
        match unp_ver {
            15 => Some(LegacyCodec::Rar15),
            20 | 26 => Some(LegacyCodec::Rar20),
            29 | 36 => Some(LegacyCodec::Rar29),
            _ => None,
        }
    }
}

} // verus!
