//! Error types for RAR archive operations.

use crate::text::{
    decimal, padded_hex, padded_upper_hex, push_decimal, push_padded_hex, push_padded_upper_hex,
};
use vstd::prelude::*;
use vstd::string::*;

verus! {

/// `std::io::Error`, carried through unread.
#[verifier::external_type_specification]
#[verifier::external_body]
pub struct ExIoError(std::io::Error);

/// Stable, machine-readable category of a [`RarError`].
#[derive(Clone, Copy, Debug, PartialEq, Eq, Hash, Structural)]
#[non_exhaustive]
pub enum ErrorCode {
    /// Malformed archive bytes: a header, block or field the format cannot
    /// produce.
    Format,
    /// The call is invalid for the archive's current mode.
    InvalidState,
    /// An option value or combination that is refused.
    InvalidOption,
    /// A stored CRC32 does not match the decoded bytes.
    CrcMismatch,
    /// A stored file hash does not match.
    HashMismatch,
    /// Encrypted content was reached without a usable password.
    Encrypted,
    /// A valid RAR feature that is not implemented.
    Unsupported,
    /// A security policy refused the operation.
    Security,
    /// A size, dictionary or resource limit was exceeded.
    LimitExceeded,
    /// No such member.
    MemberNotFound,
    /// A name expected to identify one member matched several entries.
    AmbiguousMember,
    /// An entry ID from an older catalog generation.
    StaleEntryId,
    /// The archive carries the lock bit and cannot be rewritten.
    ArchiveLocked,
    /// The caller's cancellation flag was signalled.
    Cancelled,
    /// Header-encrypted archive opened with the wrong password.
    WrongPassword,
    /// Underlying I/O failure.
    Io,
}

impl ErrorCode {
    /// The stable snake-case name of the category.
    pub open spec fn spec_name(self) -> Seq<char> {
        match self {
            ErrorCode::Format => "format"@,
            ErrorCode::InvalidState => "invalid_state"@,
            ErrorCode::InvalidOption => "invalid_option"@,
            ErrorCode::CrcMismatch => "crc_mismatch"@,
            ErrorCode::HashMismatch => "hash_mismatch"@,
            ErrorCode::Encrypted => "encrypted"@,
            ErrorCode::Unsupported => "unsupported"@,
            ErrorCode::Security => "security"@,
            ErrorCode::LimitExceeded => "limit_exceeded"@,
            ErrorCode::MemberNotFound => "member_not_found"@,
            ErrorCode::AmbiguousMember => "ambiguous_member"@,
            ErrorCode::StaleEntryId => "stale_entry_id"@,
            ErrorCode::ArchiveLocked => "archive_locked"@,
            ErrorCode::Cancelled => "cancelled"@,
            ErrorCode::WrongPassword => "wrong_password"@,
            ErrorCode::Io => "io"@,
        }
    }

    /// The stable snake-case name of the category.
    pub fn as_str(self) -> (s: &'static str)
        ensures
            s@ == self.spec_name(),
    {
        match self {
            ErrorCode::Format => "format",
            ErrorCode::InvalidState => "invalid_state",
            ErrorCode::InvalidOption => "invalid_option",
            ErrorCode::CrcMismatch => "crc_mismatch",
            ErrorCode::HashMismatch => "hash_mismatch",
            ErrorCode::Encrypted => "encrypted",
            ErrorCode::Unsupported => "unsupported",
            ErrorCode::Security => "security",
            ErrorCode::LimitExceeded => "limit_exceeded",
            ErrorCode::MemberNotFound => "member_not_found",
            ErrorCode::AmbiguousMember => "ambiguous_member",
            ErrorCode::StaleEntryId => "stale_entry_id",
            ErrorCode::ArchiveLocked => "archive_locked",
            ErrorCode::Cancelled => "cancelled",
            ErrorCode::WrongPassword => "wrong_password",
            ErrorCode::Io => "io",
        }
    }
}

/// Two categories never share a name.
pub proof fn lemma_names_differ(a: ErrorCode, b: ErrorCode)
    requires
        a.spec_name() == b.spec_name(),
    ensures
        a == b,
{
    reveal_strlit("format");
    reveal_strlit("invalid_state");
    reveal_strlit("invalid_option");
    reveal_strlit("crc_mismatch");
    reveal_strlit("hash_mismatch");
    reveal_strlit("encrypted");
    reveal_strlit("unsupported");
    reveal_strlit("security");
    reveal_strlit("limit_exceeded");
    reveal_strlit("member_not_found");
    reveal_strlit("ambiguous_member");
    reveal_strlit("stale_entry_id");
    reveal_strlit("archive_locked");
    reveal_strlit("cancelled");
    reveal_strlit("wrong_password");
    reveal_strlit("io");
    let x = a.spec_name();
    let y = b.spec_name();
    assert(x.len() == y.len() && x[0] == y[0] && x[1] == y[1] && x[x.len() - 1] == y[y.len() - 1]
        && x[x.len() - 3] == y[y.len() - 3] || x.len() == 2);
}

/// Every failure of the library, with a payload where the caller can act on
/// it.
#[derive(Debug)]
#[non_exhaustive]
pub enum RarError {
    /// Invalid or unexpected archive format.
    Format(String),
    /// The requested operation is not valid for the archive's current mode.
    InvalidState(String),
    /// An option is invalid or an unsupported combination.
    InvalidOption(String),
    /// CRC32 checksum mismatch.
    Crc {
        /// The CRC32 the archive stored.
        expected: u32,
        /// The CRC32 of the decoded bytes.
        actual: u32,
        /// What was being decoded.
        context: String,
    },
    /// File hash mismatch.
    HashMismatch {
        /// The hash the archive stored.
        expected: [u8; 32],
        /// The hash of the decoded bytes.
        actual: [u8; 32],
        /// What was being decoded.
        context: String,
    },
    /// Encrypted content encountered without a password.
    Encrypted(String),
    /// Valid RAR feature that is not implemented.
    Unsupported(String),
    /// Security policy violation.
    Security(String),
    /// A configured size or resource limit was exceeded.
    LimitExceeded {
        /// The configured limit.
        limit: u64,
        /// What was being done when the limit was hit.
        context: String,
    },
    /// The requested member does not exist in the archive.
    MemberNotFound {
        /// The name that matched nothing.
        name: String,
    },
    /// A name expected to identify one member matched several entries.
    AmbiguousMember {
        /// The duplicate member name.
        name: String,
        /// Number of entries carrying `name`.
        matches: usize,
    },
    /// An entry ID belongs to another or outdated catalog.
    StaleEntryId,
    /// The archive is locked.
    ArchiveLocked,
    /// The operation was cancelled by the caller.
    Cancelled,
    /// An encrypted archive was opened with the wrong password.
    WrongPassword,
    /// Underlying I/O error.
    Io(std::io::Error),
}

/// Result type of the fallible functions.
pub type RarResult<T> = Result<T, RarError>;

/// `e` reports a malformed archive in the given words.
pub open spec fn is_format(e: RarError, message: Seq<char>) -> bool {
    e matches RarError::Format(s) && s@ == message
}

/// `e` reports encrypted content in the given words.
pub open spec fn is_encrypted(e: RarError, message: Seq<char>) -> bool {
    e matches RarError::Encrypted(s) && s@ == message
}

/// `e` reports a feature that is not implemented, in the given words.
pub open spec fn is_unsupported(e: RarError, message: Seq<char>) -> bool {
    e matches RarError::Unsupported(s) && s@ == message
}

/// `e` reports a refused option in the given words.
pub open spec fn is_invalid_option(e: RarError, message: Seq<char>) -> bool {
    e matches RarError::InvalidOption(s) && s@ == message
}

/// `e` reports the checksum `actual` where the archive stored `expected`.
pub open spec fn is_crc(e: RarError, expected: u32, actual: u32, context: Seq<char>) -> bool {
    e matches RarError::Crc { expected: x, actual: y, context: c } && x == expected && y == actual
        && c@ == context
}

impl RarError {
    /// Malformed archive bytes.
    pub fn format(message: &str) -> (r: RarError)
        ensures
            r matches RarError::Format(s) && s@ == message@,
    {
        RarError::Format(message.to_owned())
    }

    /// The call is invalid for the archive's current mode.
    pub fn invalid_state(message: &str) -> (r: RarError)
        ensures
            r matches RarError::InvalidState(s) && s@ == message@,
    {
        RarError::InvalidState(message.to_owned())
    }

    /// An option value or combination that is refused.
    pub fn invalid_option(message: &str) -> (r: RarError)
        ensures
            r matches RarError::InvalidOption(s) && s@ == message@,
    {
        RarError::InvalidOption(message.to_owned())
    }

    /// Encrypted content was reached without a usable password.
    pub fn encrypted(message: &str) -> (r: RarError)
        ensures
            r matches RarError::Encrypted(s) && s@ == message@,
    {
        RarError::Encrypted(message.to_owned())
    }

    /// A valid RAR feature that is not implemented.
    pub fn unsupported(message: &str) -> (r: RarError)
        ensures
            r matches RarError::Unsupported(s) && s@ == message@,
    {
        RarError::Unsupported(message.to_owned())
    }

    /// A security policy refused the operation.
    pub fn security(message: &str) -> (r: RarError)
        ensures
            r matches RarError::Security(s) && s@ == message@,
    {
        RarError::Security(message.to_owned())
    }

    /// A stored CRC32 does not match the decoded bytes.
    pub fn crc(expected: u32, actual: u32, context: &str) -> (r: RarError)
        ensures
            is_crc(r, expected, actual, context@),
    {
        RarError::Crc { expected, actual, context: context.to_owned() }
    }

    /// A stored file hash does not match.
    pub fn hash_mismatch(expected: [u8; 32], actual: [u8; 32], context: &str) -> (r: RarError)
        ensures
            r matches RarError::HashMismatch { expected: x, actual: y, context: c } && x == expected
                && y == actual && c@ == context@,
    {
        RarError::HashMismatch { expected, actual, context: context.to_owned() }
    }

    /// A configured size, dictionary or resource limit was exceeded.
    pub fn limit_exceeded(limit: u64, context: &str) -> (r: RarError)
        ensures
            r matches RarError::LimitExceeded { limit: l, context: c } && l == limit && c@
                == context@,
    {
        RarError::LimitExceeded { limit, context: context.to_owned() }
    }

    /// No such member.
    pub fn member_not_found(name: &str) -> (r: RarError)
        ensures
            r matches RarError::MemberNotFound { name: n } && n@ == name@,
    {
        RarError::MemberNotFound { name: name.to_owned() }
    }

    /// A name expected to identify one member matched several entries.
    pub fn ambiguous_member(name: &str, matches: usize) -> (r: RarError)
        ensures
            r matches RarError::AmbiguousMember { name: n, matches: m } && n@ == name@ && m
                == matches,
    {
        RarError::AmbiguousMember { name: name.to_owned(), matches }
    }

    /// The stable category of the error.
    pub open spec fn spec_code(self) -> ErrorCode {
        match self {
            RarError::Format(_) => ErrorCode::Format,
            RarError::InvalidState(_) => ErrorCode::InvalidState,
            RarError::InvalidOption(_) => ErrorCode::InvalidOption,
            RarError::Crc { .. } => ErrorCode::CrcMismatch,
            RarError::HashMismatch { .. } => ErrorCode::HashMismatch,
            RarError::Encrypted(_) => ErrorCode::Encrypted,
            RarError::Unsupported(_) => ErrorCode::Unsupported,
            RarError::Security(_) => ErrorCode::Security,
            RarError::LimitExceeded { .. } => ErrorCode::LimitExceeded,
            RarError::MemberNotFound { .. } => ErrorCode::MemberNotFound,
            RarError::AmbiguousMember { .. } => ErrorCode::AmbiguousMember,
            RarError::StaleEntryId => ErrorCode::StaleEntryId,
            RarError::ArchiveLocked => ErrorCode::ArchiveLocked,
            RarError::Cancelled => ErrorCode::Cancelled,
            RarError::WrongPassword => ErrorCode::WrongPassword,
            RarError::Io(_) => ErrorCode::Io,
        }
    }

    /// The stable category of the error.
    pub fn code(&self) -> (r: ErrorCode)
        ensures
            r == self.spec_code(),
    {
        match self {
            RarError::Format(_) => ErrorCode::Format,
            RarError::InvalidState(_) => ErrorCode::InvalidState,
            RarError::InvalidOption(_) => ErrorCode::InvalidOption,
            RarError::Crc { .. } => ErrorCode::CrcMismatch,
            RarError::HashMismatch { .. } => ErrorCode::HashMismatch,
            RarError::Encrypted(_) => ErrorCode::Encrypted,
            RarError::Unsupported(_) => ErrorCode::Unsupported,
            RarError::Security(_) => ErrorCode::Security,
            RarError::LimitExceeded { .. } => ErrorCode::LimitExceeded,
            RarError::MemberNotFound { .. } => ErrorCode::MemberNotFound,
            RarError::AmbiguousMember { .. } => ErrorCode::AmbiguousMember,
            RarError::StaleEntryId => ErrorCode::StaleEntryId,
            RarError::ArchiveLocked => ErrorCode::ArchiveLocked,
            RarError::Cancelled => ErrorCode::Cancelled,
            RarError::WrongPassword => ErrorCode::WrongPassword,
            RarError::Io(_) => ErrorCode::Io,
        }
    }

    /// The error in words; the system's own words stand after an I/O error's.
    pub open spec fn spec_message(self) -> Seq<char> {
        match self {
            RarError::Format(msg) => "RAR format error: "@ + msg@,
            RarError::InvalidState(msg) => "invalid archive state: "@ + msg@,
            RarError::InvalidOption(msg) => "invalid option: "@ + msg@,
            RarError::Crc { expected, actual, context } => "CRC mismatch in "@ + context@
                + ": expected 0x"@ + padded_upper_hex(expected as nat, 8) + ", got 0x"@
                + padded_upper_hex(actual as nat, 8),
            RarError::HashMismatch { expected, actual, context } => "hash mismatch in "@ + context@
                + ": expected "@ + hex_bytes(expected@) + ", got "@ + hex_bytes(actual@),
            RarError::Encrypted(msg) => "encrypted: "@ + msg@,
            RarError::Unsupported(msg) => "unsupported: "@ + msg@,
            RarError::Security(msg) => "security: "@ + msg@,
            RarError::LimitExceeded { limit, context } => "limit exceeded ("@ + decimal(
                limit as nat,
            ) + "): "@ + context@,
            RarError::MemberNotFound { name } => "member not found: "@ + name@,
            RarError::AmbiguousMember { name, matches } => "member name is ambiguous: "@ + name@
                + " ("@ + decimal(matches as nat) + " matches)"@,
            RarError::StaleEntryId => "entry ID belongs to another or outdated catalog"@,
            RarError::ArchiveLocked => "archive is locked"@,
            RarError::Cancelled => "operation cancelled"@,
            RarError::WrongPassword => "encrypted: wrong password"@,
            RarError::Io(_) => "I/O error: "@,
        }
    }

    /// The error in words.
    pub fn message(&self) -> (s: String)
        ensures
            self is Io ==> self.spec_message().is_prefix_of(s@),
            !(self is Io) ==> s@ == self.spec_message(),
    {
        let mut s = String::new();
        match self {
            RarError::Format(msg) => {
                s.append("RAR format error: ");
                s.append(msg.as_str());
            },
            RarError::InvalidState(msg) => {
                s.append("invalid archive state: ");
                s.append(msg.as_str());
            },
            RarError::InvalidOption(msg) => {
                s.append("invalid option: ");
                s.append(msg.as_str());
            },
            RarError::Crc { expected, actual, context } => {
                s.append("CRC mismatch in ");
                s.append(context.as_str());
                s.append(": expected 0x");
                push_padded_upper_hex(&mut s, *expected as u64, 8);
                s.append(", got 0x");
                push_padded_upper_hex(&mut s, *actual as u64, 8);
            },
            RarError::HashMismatch { expected, actual, context } => {
                s.append("hash mismatch in ");
                s.append(context.as_str());
                s.append(": expected ");
                let e = hex32(expected);
                s.append(e.as_str());
                s.append(", got ");
                let a = hex32(actual);
                s.append(a.as_str());
            },
            RarError::Encrypted(msg) => {
                s.append("encrypted: ");
                s.append(msg.as_str());
            },
            RarError::Unsupported(msg) => {
                s.append("unsupported: ");
                s.append(msg.as_str());
            },
            RarError::Security(msg) => {
                s.append("security: ");
                s.append(msg.as_str());
            },
            RarError::LimitExceeded { limit, context } => {
                s.append("limit exceeded (");
                push_decimal(&mut s, *limit);
                s.append("): ");
                s.append(context.as_str());
            },
            RarError::MemberNotFound { name } => {
                s.append("member not found: ");
                s.append(name.as_str());
            },
            RarError::AmbiguousMember { name, matches } => {
                s.append("member name is ambiguous: ");
                s.append(name.as_str());
                s.append(" (");
                push_decimal(&mut s, *matches as u64);
                s.append(" matches)");
            },
            RarError::StaleEntryId => {
                s.append("entry ID belongs to another or outdated catalog");
            },
            RarError::ArchiveLocked => {
                s.append("archive is locked");
            },
            RarError::Cancelled => {
                s.append("operation cancelled");
            },
            RarError::WrongPassword => {
                s.append("encrypted: wrong password");
            },
            RarError::Io(e) => {
                s.append("I/O error: ");
                let ghost head = s@;
                let text = io_error_text(e);
                s.append(text.as_str());
                proof {
                    assert(head =~= self.spec_message());
                    assert(s@ == head + text@);
                    assert(s@.take(head.len() as int) =~= head);
                }
            },
        }
        assert(!(self is Io) ==> s@ =~= self.spec_message());
        s
    }
}

/// `std::io::Error`'s own text, which is the operating system's and its
/// locale's: nothing is claimed of it.
#[verifier::external_body]
fn io_error_text(e: &std::io::Error) -> (s: String) {
    format!("{e}")
}

/// Two lower-case digits per byte.
pub open spec fn hex_bytes(bytes: Seq<u8>) -> Seq<char>
    decreases bytes.len(),
{
    if bytes.len() == 0 {
        Seq::empty()
    } else {
        hex_bytes(bytes.drop_last()) + padded_hex(bytes.last() as nat, 2)
    }
}

/// Two lower-case digits per byte.
fn hex32(bytes: &[u8; 32]) -> (out: String)
    ensures
        out@ == hex_bytes(bytes@),
{
    let mut out = String::new();
    let mut i: usize = 0;
    while i < 32
        invariant
            i <= 32,
            out@ == hex_bytes(bytes@.take(i as int)),
        decreases 32 - i,
    {
        push_padded_hex(&mut out, bytes[i] as u64, 2);
        proof {
            assert(bytes@.take(i + 1).drop_last() =~= bytes@.take(i as int));
        }
        i += 1;
    }
    proof {
        assert(bytes@.take(32) =~= bytes@);
    }
    out
}

impl From<std::io::Error> for RarError {
    fn from(e: std::io::Error) -> (r: RarError) {
        RarError::Io(e)
    }
}

impl vstd::std_specs::convert::FromSpecImpl<std::io::Error> for RarError {
    open spec fn obeys_from_spec() -> bool {
        true
    }

    open spec fn from_spec(e: std::io::Error) -> RarError {
        RarError::Io(e)
    }
}

} // verus!
