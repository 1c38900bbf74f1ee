//! Large members: what is decided once the source was compressed into a
//! spill, or copied, and before its data is written in pieces.

use crate::error::{is_invalid_option, is_unsupported, RarError, RarResult};
use crate::rar4::create::ensure_member_size;
use crate::rar4::emit::{fits_behind, VolumeReserve};
use crate::rar4::encode::{aligned16, payload_cipher, payload_len, PayloadCipher};
use crate::rar4::member::{
    continues_run, ends_run, is_refused, plan_rar4_member, rar4_stream_level, run_after,
    stream_level, streamed_payload, track_rar4_solid_member, writable, MemberLayout, Rar4Member,
    Rar4Output, RunStep, SolidRun,
};
use crate::rar4::names::name_bytes;
use crate::rar4::RAR4_METHOD_STORE;
use crate::text::{decimal, push_decimal};
use crate::version::{spec_codec, LegacyCodec};
use vstd::prelude::*;
use vstd::string::*;

verus! {

/// `std::io::Error` of the kind `UnexpectedEof` with a text of the library's:
/// nothing is claimed of it.
#[verifier::external_body]
fn eof_error(text: String) -> (e: std::io::Error) {
    std::io::Error::new(std::io::ErrorKind::UnexpectedEof, text)
}

/// A name with forward slashes alone.
pub open spec fn forward_slashed(name: Seq<char>) -> Seq<char> {
    name.map_values(
        |c: char|
            if c == '\\' {
                '/'
            } else {
                c
            },
    )
}

/// The name of a file in the archive: its path, with forward slashes.
pub fn archive_name(name: &str) -> (r: String)
    ensures
        r@ == forward_slashed(name@),
{
    let n = name.unicode_len();
    let mut out = String::new();
    let mut i: usize = 0;
    assert(out@ =~= forward_slashed(name@.take(0)));
    while i < n
        invariant
            n == name@.len(),
            i <= n,
            out@ == forward_slashed(name@.take(i as int)),
        decreases n - i,
    {
        let c = name.get_char(i);
        let d = if c == '\\' {
            '/'
        } else {
            c
        };
        out.push(d);
        i += 1;
        assert(out@ =~= forward_slashed(name@.take(i as int)));
    }
    assert(name@.take(n as int) =~= name@);
    out
}

/// How a file is added.
#[derive(Debug)]
pub enum FileRoute {
    /// In pieces, compressed with this level or stored.
    Streamed { name: String, level: u8 },
    /// Read whole.
    Buffered { name: String },
}

/// Choose how a file is added: a large one is streamed, if its version allows
/// that. `sample_incompressible` is what a probe of the file says.
pub fn add_file_rar4(
    name: &str,
    file_size: u64,
    solid_append: bool,
    unp_ver: u8,
    password: bool,
    solid: bool,
    level: u8,
    sample_incompressible: bool,
) -> (r: FileRoute)
    ensures
        ({
            let streamed = stream_level(
                file_size,
                solid_append,
                unp_ver,
                password,
                solid,
                level,
                sample_incompressible,
            );
            match r {
                FileRoute::Streamed { name: n, level: l } => n@ == forward_slashed(name@)
                    && streamed == Some(l),
                FileRoute::Buffered { name: n } => n@ == forward_slashed(name@) && streamed is None,
            }
        }),
{
    let name = archive_name(name);
    match rar4_stream_level(
        file_size,
        solid_append,
        unp_ver,
        password,
        solid,
        level,
        sample_incompressible,
    ) {
        Some(level) => FileRoute::Streamed { name, level },
        None => FileRoute::Buffered { name },
    }
}

/// A file must not change its size while it is read.
pub fn check_read_size(file_size: u64, read: u64) -> (r: RarResult<()>)
    ensures
        match r {
            Ok(_) => read == file_size,
            Err(e) => read != file_size && e is Io,
        },
{
    if read != file_size {
        let mut s = String::new();
        s.append("file changed size while being archived: expected ");
        push_decimal(&mut s, file_size);
        s.append(" bytes, read ");
        push_decimal(&mut s, read);
        return Err(RarError::Io(eof_error(s)));
    }
    Ok(())
}

/// What reading a source, and compressing it, came to.
#[derive(Clone, Copy)]
pub struct StreamedSource {
    /// Size of the file when it was opened.
    pub file_size: u64,
    /// Bytes read.
    pub read: u64,
    /// CRC-32 of what was read.
    pub file_crc: u32,
    /// Level it was compressed with; at level 0 it was not.
    pub level: u8,
    /// Bytes that the encoder wrote into the spill.
    pub compressed: u64,
}

/// The payload of a streamed member.
#[derive(Clone, Copy, PartialEq, Eq, Structural, Debug)]
pub struct StreamedPayload {
    /// The payload is the spill; else it is the source itself.
    pub from_spill: bool,
    /// Its bytes before encryption, and on disk.
    pub plain_len: u64,
    pub packed_size: u64,
    pub method: u8,
    pub cipher: Option<PayloadCipher>,
}

/// The payload of a streamed member: the spill if it is smaller than the
/// source, padded where a block cipher encrypts it.
pub open spec fn is_streamed(
    p: StreamedPayload,
    src: StreamedSource,
    unp_ver: u8,
    password: bool,
) -> bool {
    let packs = src.level > 0 && src.compressed < src.file_size;
    &&& p.from_spill == packs
    &&& p.plain_len == if packs {
        src.compressed
    } else {
        src.file_size
    }
    &&& p.method == if packs {
        (0x30 + src.level) as u8
    } else {
        RAR4_METHOD_STORE
    }
    &&& match p.cipher {
        Some(c) => {
            &&& password
            &&& spec_codec(unp_ver) == Some(c.codec)
            &&& c.padded == (c.codec != LegacyCodec::Rar15)
            &&& c.salted == (c.codec == LegacyCodec::Rar29)
        },
        None => !password,
    }
    &&& p.packed_size == if p.cipher is Some && p.cipher->Some_0.padded {
        aligned16(p.plain_len as int)
    } else {
        p.plain_len as int
    }
}

/// `e` refuses a size that does not fit the header's field.
pub open spec fn is_too_large(e: RarError, size: u64) -> bool {
    size > u32::MAX && is_invalid_option(
        e,
        "RAR4 members cannot exceed 4294967295 bytes (got "@ + decimal(size as nat) + ")"@,
    )
}

/// Decide on the payload of a streamed member. A file that is too large, that
/// changed its size while it was read, whose version has no cipher, or whose
/// padded payload is too large, is refused.
pub fn streamed_member(src: StreamedSource, unp_ver: u8, password: bool) -> (r: RarResult<
    StreamedPayload,
>)
    requires
        src.level <= 5,
    ensures
        match r {
            Ok(p) => {
                &&& src.file_size <= u32::MAX
                &&& src.read == src.file_size
                &&& is_streamed(p, src, unp_ver, password)
                &&& p.packed_size <= u32::MAX
            },
            Err(e) => {
                ||| is_too_large(e, src.file_size)
                ||| src.file_size <= u32::MAX && src.read != src.file_size && e is Io
                ||| src.file_size <= u32::MAX && src.read == src.file_size && password
                    && spec_codec(unp_ver) is None && is_unsupported(
                    e,
                    "RAR4 write encryption: unp_ver "@ + decimal(unp_ver as nat)
                        + " has no cipher"@,
                )
                ||| src.file_size <= u32::MAX && src.read == src.file_size && (!password
                    || spec_codec(unp_ver) is Some) && exists|p: StreamedPayload| #[trigger]
                    is_streamed(p, src, unp_ver, password) && is_too_large(e, p.packed_size)
            },
        },
{
    match ensure_member_size(src.file_size) {
        Ok(_) => {},
        Err(e) => {
            return Err(e);
        },
    }
    match check_read_size(src.file_size, src.read) {
        Ok(_) => {},
        Err(e) => {
            return Err(e);
        },
    }
    let (plain_len, method) = streamed_payload(src.file_size, src.compressed, src.level);
    let cipher = if password {
        match payload_cipher(unp_ver) {
            Ok(c) => Some(c),
            Err(e) => {
                return Err(e);
            },
        }
    } else {
        None
    };
    let packed_size = payload_len(plain_len, cipher);
    let from_spill = src.level > 0 && src.compressed < src.file_size;
    let p = StreamedPayload { from_spill, plain_len, packed_size, method, cipher };
    assert(is_streamed(p, src, unp_ver, password));
    match ensure_member_size(packed_size) {
        Ok(_) => Ok(p),
        Err(e) => Err(e),
    }
}

/// A streamed member as it is going to be written.
pub struct StreamPlan {
    pub member: Rar4Member,
    pub payload: StreamedPayload,
    pub layout: MemberLayout,
    pub step: RunStep,
}

/// What is known of a file besides its contents.
pub struct StreamedFile {
    pub name: String,
    pub mtime: u32,
    pub civil: u32,
    pub mtime_ns: u32,
    pub attr: u32,
    /// The salt of its payload's cipher, if that takes one.
    pub salt: Option<[u8; 8]>,
}

/// The member of a streamed file.
pub open spec fn is_streamed_member(
    m: Rar4Member,
    file: StreamedFile,
    src: StreamedSource,
    p: StreamedPayload,
    run: SolidRun,
) -> bool {
    &&& m.name@ == file.name@
    &&& m.unpacked_size == src.file_size && m.file_crc == src.file_crc
    &&& m.mtime == file.mtime && m.civil == file.civil && m.mtime_ns == file.mtime_ns
    &&& m.method == p.method && m.level == src.level
    &&& m.password == (p.cipher is Some)
    &&& m.salt == if p.cipher is Some && p.cipher->Some_0.salted {
        file.salt
    } else {
        None
    }
    &&& m.comment is None && m.attr == file.attr
    &&& m.solid_continuation == continues_run(run, p.method)
}

/// Lay out a member that is too large for memory: its payload, its place in
/// the solid run, and its pieces. The pieces are written one after the other,
/// each behind its header; [`crate::rar4::member::finish_rar4_member`] makes
/// the headers from the pieces' checksums.
pub fn add_rar4_file_streaming<R: VolumeReserve>(
    reserve: &R,
    file: StreamedFile,
    src: StreamedSource,
    password: bool,
    run: SolidRun,
    out: &Rar4Output,
) -> (r: RarResult<StreamPlan>)
    requires
        src.level <= 5,
        name_bytes(file.name@).0.len() <= 0xfff_ffff,
        fits_behind(out.position as int),
        fits_behind(out.used as int),
        fits_behind(out.fresh as int),
    ensures
        match r {
            Ok(plan) => {
                &&& src.file_size <= u32::MAX && src.read == src.file_size
                &&& is_streamed(plan.payload, src, out.unp_ver, password)
                &&& is_streamed_member(plan.member, file, src, plan.payload, run)
                &&& writable(plan.member, plan.payload.packed_size as int, *out)
                &&& plan.layout.is_for(*reserve, plan.member, plan.payload.packed_size, *out)
                &&& plan.step.continuation == continues_run(run, plan.payload.method)
                &&& plan.step.drop_encoder == ends_run(run, plan.payload.method)
                &&& plan.step.run == run_after(run, plan.payload.method, src.file_size)
            },
            Err(e) => {
                ||| is_too_large(e, src.file_size)
                ||| src.file_size <= u32::MAX && src.read != src.file_size && e is Io
                ||| src.file_size <= u32::MAX && src.read == src.file_size && password
                    && spec_codec(out.unp_ver) is None && is_unsupported(
                    e,
                    "RAR4 write encryption: unp_ver "@ + decimal(out.unp_ver as nat)
                        + " has no cipher"@,
                )
                ||| src.file_size <= u32::MAX && src.read == src.file_size && exists|
                    p: StreamedPayload,
                | #[trigger]
                    is_streamed(p, src, out.unp_ver, password) && {
                        ||| is_too_large(e, p.packed_size)
                        ||| p.packed_size <= u32::MAX && exists|m: Rar4Member|
                            is_streamed_member(m, file, src, p, run) && #[trigger] is_refused(
                                e,
                                *reserve,
                                m,
                                p.packed_size,
                                *out,
                            )
                    }
            },
        },
{
    let payload = match streamed_member(src, out.unp_ver, password) {
        Ok(p) => p,
        Err(e) => {
            return Err(e);
        },
    };
    let step = track_rar4_solid_member(run, payload.method, src.file_size);
    let salt = match payload.cipher {
        Some(c) => if c.salted {
            file.salt
        } else {
            None
        },
        None => None,
    };
    let member = Rar4Member {
        name: file.name,
        unpacked_size: src.file_size,
        file_crc: src.file_crc,
        mtime: file.mtime,
        civil: file.civil,
        mtime_ns: file.mtime_ns,
        method: payload.method,
        level: src.level,
        password: payload.cipher.is_some(),
        salt,
        comment: None,
        attr: file.attr,
        solid_continuation: step.continuation,
    };
    assert(is_streamed_member(member, file, src, payload, run));
    match plan_rar4_member(reserve, &member, payload.packed_size, out) {
        Ok(layout) => Ok(StreamPlan { member, payload, layout, step }),
        Err(e) => {
            assert(is_streamed(payload, src, out.unp_ver, password));
            Err(e)
        },
    }
}

/// Data is copied by pieces of at most this size.
pub const COPY_SIZE: u64 = 0x10_0000;

/// Where the copy that starts at `pos` ends.
pub fn copy_end(pos: u64, packed_size: u64) -> (r: u64)
    requires
        pos < packed_size,
    ensures
        pos < r <= packed_size,
        r - pos <= COPY_SIZE,
        r < packed_size ==> r - pos == COPY_SIZE,
{
    if packed_size - pos < COPY_SIZE {
        packed_size
    } else {
        pos + COPY_SIZE
    }
}

} // verus!
