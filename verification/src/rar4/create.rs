//! What a RAR4 archive cannot express is refused when it is created.

use crate::error::{is_invalid_option, RarError, RarResult};
use crate::text::{decimal, with_number};
use vstd::prelude::*;
use vstd::string::*;

verus! {

/// Why options are refused, the first reason first.
pub open spec fn rar4_refusal(
    quick_open: bool,
    blake2: bool,
    recovery_volumes: bool,
    records: bool,
    has_dictionary: bool,
) -> Option<Seq<char>> {
    if quick_open {
        Some("quick-open is not supported for RAR4 archives"@)
    } else if blake2 {
        Some("BLAKE2sp hashes are not supported for RAR4 archives"@)
    } else if recovery_volumes {
        Some("recovery volumes are not supported for RAR4 archives"@)
    } else if records {
        Some("owner and stream records are not supported for RAR4 archives"@)
    } else if has_dictionary {
        Some("RAR4 archives do not support configurable dictionary sizes"@)
    } else {
        None
    }
}

/// Refuse options that the RAR4 container cannot express.
pub fn validate_rar4_only(
    quick_open: bool,
    blake2: bool,
    recovery_volumes_percent: Option<u8>,
    recovery_volume_count: Option<u32>,
    save_owner: bool,
    save_streams: bool,
    has_dictionary: bool,
) -> (r: RarResult<()>)
    ensures
        match (
            r,
            rar4_refusal(
                quick_open,
                blake2,
                recovery_volumes_percent is Some || recovery_volume_count is Some,
                save_owner || save_streams,
                has_dictionary,
            ),
        ) {
            (Ok(_), None) => true,
            (Err(e), Some(m)) => is_invalid_option(e, m),
            _ => false,
        },
{
    if quick_open {
        return Err(RarError::invalid_option("quick-open is not supported for RAR4 archives"));
    }
    if blake2 {
        return Err(
            RarError::invalid_option("BLAKE2sp hashes are not supported for RAR4 archives"),
        );
    }
    if recovery_volumes_percent.is_some() || recovery_volume_count.is_some() {
        return Err(
            RarError::invalid_option("recovery volumes are not supported for RAR4 archives"),
        );
    }
    if save_owner || save_streams {
        return Err(
            RarError::invalid_option(
                "owner and stream records are not supported for RAR4 archives",
            ),
        );
    }
    if has_dictionary {
        return Err(
            RarError::invalid_option("RAR4 archives do not support configurable dictionary sizes"),
        );
    }
    Ok(())
}

/// Refuse a member whose size does not fit the header's 32-bit field.
pub fn ensure_member_size(size: u64) -> (r: RarResult<()>)
    ensures
        match r {
            Ok(_) => size <= u32::MAX,
            Err(e) => size > u32::MAX && is_invalid_option(
                e,
                "RAR4 members cannot exceed 4294967295 bytes (got "@ + decimal(size as nat) + ")"@,
            ),
        },
{
    if size > u32::MAX as u64 {
        return Err(
            RarError::InvalidOption(
                with_number("RAR4 members cannot exceed 4294967295 bytes (got ", size, ")"),
            ),
        );
    }
    Ok(())
}

} // verus!
