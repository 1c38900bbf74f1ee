//! What a RAR 1.3/1.4 archive cannot express is refused when it is created.

use crate::error::{is_invalid_option, RarError, RarResult};
use crate::text::{decimal, with_number};
use vstd::prelude::*;
use vstd::string::*;

verus! {

/// The writer options that the container cannot express.
#[derive(Clone, Copy, Debug)]
pub struct Rar13WriteOptions {
    pub quick_open: bool,
    pub blake2: bool,
    pub recovery_percent: Option<u8>,
    pub recovery_volumes_percent: Option<u8>,
    pub recovery_volume_count: Option<u32>,
    pub save_owner: bool,
    pub save_streams: bool,
    pub has_dictionary: bool,
    pub encrypt_headers: bool,
}

impl Default for Rar13WriteOptions {
    fn default() -> (r: Rar13WriteOptions)
        ensures
            rar13_refusal(r) is None,
    {
        Rar13WriteOptions {
            quick_open: false,
            blake2: false,
            recovery_percent: None,
            recovery_volumes_percent: None,
            recovery_volume_count: None,
            save_owner: false,
            save_streams: false,
            has_dictionary: false,
            encrypt_headers: false,
        }
    }
}

/// Why options are refused, the first reason first.
pub open spec fn rar13_refusal(o: Rar13WriteOptions) -> Option<Seq<char>> {
    if o.quick_open {
        Some("quick-open is not supported for RAR 1.3/1.4 archives"@)
    } else if o.blake2 {
        Some("BLAKE2sp hashes are not supported for RAR 1.3/1.4 archives"@)
    } else if o.recovery_percent is Some {
        Some("recovery records are not supported for RAR 1.3/1.4 archives"@)
    } else if o.recovery_volumes_percent is Some || o.recovery_volume_count is Some {
        Some("recovery volumes are not supported for RAR 1.3/1.4 archives"@)
    } else if o.save_owner || o.save_streams {
        Some("owner and stream records are not supported for RAR 1.3/1.4 archives"@)
    } else if o.has_dictionary {
        Some("RAR 1.3/1.4 archives do not support configurable dictionary sizes"@)
    } else if o.encrypt_headers {
        Some("header encryption is not supported for RAR 1.3/1.4 archives"@)
    } else {
        None
    }
}

/// Refuse options that the container cannot express.
pub fn validate_rar13_only(options: Rar13WriteOptions) -> (r: RarResult<()>)
    ensures
        match (r, rar13_refusal(options)) {
            (Ok(_), None) => true,
            (Err(e), Some(m)) => is_invalid_option(e, m),
            _ => false,
        },
{
    if options.quick_open {
        return Err(
            RarError::invalid_option("quick-open is not supported for RAR 1.3/1.4 archives"),
        );
    }
    if options.blake2 {
        return Err(
            RarError::invalid_option("BLAKE2sp hashes are not supported for RAR 1.3/1.4 archives"),
        );
    }
    if options.recovery_percent.is_some() {
        return Err(
            RarError::invalid_option(
                "recovery records are not supported for RAR 1.3/1.4 archives",
            ),
        );
    }
    if options.recovery_volumes_percent.is_some() || options.recovery_volume_count.is_some() {
        return Err(
            RarError::invalid_option(
                "recovery volumes are not supported for RAR 1.3/1.4 archives",
            ),
        );
    }
    if options.save_owner || options.save_streams {
        return Err(
            RarError::invalid_option(
                "owner and stream records are not supported for RAR 1.3/1.4 archives",
            ),
        );
    }
    if options.has_dictionary {
        return Err(
            RarError::invalid_option(
                "RAR 1.3/1.4 archives do not support configurable dictionary sizes",
            ),
        );
    }
    if options.encrypt_headers {
        return Err(
            RarError::invalid_option(
                "header encryption is not supported for RAR 1.3/1.4 archives",
            ),
        );
    }
    Ok(())
}

/// Refuse a member whose size does not fit the header's 32-bit field.
pub fn ensure_member_size(unpacked: u64) -> (r: RarResult<()>)
    ensures
        match r {
            Ok(_) => unpacked <= u32::MAX,
            Err(e) => unpacked > u32::MAX && is_invalid_option(
                e,
                "RAR 1.3/1.4 members cannot exceed 4294967295 bytes (got "@ + decimal(
                    unpacked as nat,
                ) + ")"@,
            ),
        },
{
    if unpacked > u32::MAX as u64 {
        return Err(
            RarError::InvalidOption(
                with_number(
                    "RAR 1.3/1.4 members cannot exceed 4294967295 bytes (got ",
                    unpacked,
                    ")",
                ),
            ),
        );
    }
    Ok(())
}

} // verus!
