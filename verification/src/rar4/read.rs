//! Reading members: size checks, the payload's assembly, decryption and what
//! surrounds the decoders.

use crate::crc32::{crc32, crc32_update, spec_crc32};
use crate::crypto::rar13::{password_key, rar13_decrypted, Rar13Cipher};
use crate::crypto::clamped;
use crate::error::{is_encrypted, is_format, is_unsupported, RarError, RarResult};
use crate::model::{DataChunk, FileHeader};
use crate::shared::checksum::{file_checksum, lemma_rolling_concat, rolling_checksum, rolling_from};
use crate::shared::split::packed_total;
use crate::text::{decimal, push_decimal};
use crate::version::{spec_codec, LegacyCodec};
use vstd::prelude::*;
use vstd::slice::{slice_subrange, slice_to_vec};
use vstd::string::*;
use vstd::utf8::encode_utf8;

verus! {

/// `std::io::Error` of the kind `UnexpectedEof`: nothing is claimed of it.
#[verifier::external_body]
pub(crate) fn unexpected_eof() -> (e: std::io::Error) {
    std::io::Error::from(std::io::ErrorKind::UnexpectedEof)
}

/// `std::io::Error` of the kind `InvalidData` with a text of the library's:
/// nothing is claimed of it.
#[verifier::external_body]
fn invalid_data(text: String) -> (e: std::io::Error) {
    std::io::Error::new(std::io::ErrorKind::InvalidData, text)
}

/// A limit was exceeded.
pub open spec fn is_limit(e: RarError, limit: u64, context: Seq<char>) -> bool {
    e matches RarError::LimitExceeded { limit: l, context: c } && l == limit && c@ == context
}

fn limit_error(limit: u64, name: &str, context: &str) -> (e: RarError)
    ensures
        is_limit(e, limit, name@ + context@),
{
    RarError::LimitExceeded { limit, context: crate::text::joined(name, context) }
}

/// Three texts and two numbers between them.
fn sentence(a: &str, name: &str, b: &str, m: u64, c: &str, n: u64) -> (s: String)
    ensures
        s@ == a@ + name@ + b@ + decimal(m as nat) + c@ + decimal(n as nat),
{
    let mut s = String::new();
    s.append(a);
    s.append(name);
    s.append(b);
    push_decimal(&mut s, m);
    s.append(c);
    push_decimal(&mut s, n);
    assert(s@ =~= a@ + name@ + b@ + decimal(m as nat) + c@ + decimal(n as nat));
    s
}

/// Whether a member is encrypted.
pub open spec fn spec_encrypted(hdr: FileHeader) -> bool {
    hdr.flags & 4 != 0
}

fn is_member_encrypted(hdr: &FileHeader) -> (r: bool)
    ensures
        r == spec_encrypted(*hdr),
{
    hdr.flags & 4 != 0
}

/// The first chunks whose sizes no longer fit 64 bits together.
pub open spec fn sizes_overflow(chunks: Seq<DataChunk>) -> bool {
    packed_total(chunks) > u64::MAX
}

/// What is wrong with the sizes of a member's chunks.
pub open spec fn size_fault(
    chunks: Seq<DataChunk>,
    hdr: FileHeader,
    max_packed_bytes: u64,
    e: RarError,
) -> bool {
    let total = packed_total(chunks);
    if sizes_overflow(chunks) {
        is_format(e, "RAR4: "@ + hdr.name@ + ": packed size overflow"@)
    } else if total != hdr.packed_size {
        is_format(
            e,
            "RAR4: "@ + hdr.name@ + ": chunk packed size "@ + decimal(total as nat)
                + " does not match header packed size "@ + decimal(hdr.packed_size as nat),
        )
    } else {
        total > max_packed_bytes && is_limit(
            e,
            max_packed_bytes,
            hdr.name@ + ": packed size "@ + decimal(total as nat)
                + " exceeds the extraction limit"@,
        )
    }
}

/// The sizes of a member's chunks are in order.
pub open spec fn sizes_in_order(
    chunks: Seq<DataChunk>,
    hdr: FileHeader,
    max_packed_bytes: u64,
) -> bool {
    packed_total(chunks) == hdr.packed_size && hdr.packed_size <= max_packed_bytes
}

proof fn lemma_total_grows(chunks: Seq<DataChunk>, k: int)
    requires
        0 <= k <= chunks.len(),
    ensures
        packed_total(chunks.take(k)) <= packed_total(chunks),
    decreases chunks.len(),
{
    if k < chunks.len() {
        assert(chunks.drop_last().take(k) =~= chunks.take(k));
        lemma_total_grows(chunks.drop_last(), k);
    } else {
        assert(chunks.take(k) =~= chunks);
    }
}

/// Packed bytes of a member's chunks, once they are found in order.
pub fn checked_packed_size(chunks: &[DataChunk], hdr: &FileHeader, max_packed_bytes: u64) -> (r:
    RarResult<u64>)
    ensures
        match r {
            Ok(total) => sizes_in_order(chunks@, *hdr, max_packed_bytes) && total
                == hdr.packed_size,
            Err(e) => !sizes_in_order(chunks@, *hdr, max_packed_bytes) && size_fault(
                chunks@,
                *hdr,
                max_packed_bytes,
                e,
            ),
        },
{
    let mut total: u64 = 0;
    let mut i: usize = 0;
    while i < chunks.len()
        invariant
            i <= chunks@.len(),
            total == packed_total(chunks@.take(i as int)),
        decreases chunks@.len() - i,
    {
        proof {
            assert(chunks@.take(i + 1).drop_last() =~= chunks@.take(i as int));
            lemma_total_grows(chunks@, i + 1);
        }
        let size = chunks[i].packed_size;
        if size > u64::MAX - total {
            let mut s = String::new();
            s.append("RAR4: ");
            s.append(hdr.name.as_str());
            s.append(": packed size overflow");
            assert(s@ =~= "RAR4: "@ + hdr.name@ + ": packed size overflow"@);
            return Err(RarError::Format(s));
        }
        total = total + size;
        i += 1;
    }
    assert(chunks@.take(i as int) =~= chunks@);
    if total != hdr.packed_size {
        return Err(
            RarError::Format(
                sentence(
                    "RAR4: ",
                    hdr.name.as_str(),
                    ": chunk packed size ",
                    total,
                    " does not match header packed size ",
                    hdr.packed_size,
                ),
            ),
        );
    }
    if total > max_packed_bytes {
        let mut s = String::new();
        s.append(hdr.name.as_str());
        s.append(": packed size ");
        push_decimal(&mut s, total);
        s.append(" exceeds the extraction limit");
        assert(s@ =~= hdr.name@ + ": packed size "@ + decimal(total as nat)
            + " exceeds the extraction limit"@);
        return Err(RarError::LimitExceeded { limit: max_packed_bytes, context: s });
    }
    Ok(total)
}

/// A packed size as a length in memory.
pub fn packed_len_for_allocation(hdr: &FileHeader, packed_size: u64, max_packed_bytes: u64) -> (r:
    RarResult<usize>)
    ensures
        match r {
            Ok(n) => n == packed_size,
            Err(e) => packed_size > usize::MAX && is_limit(
                e,
                max_packed_bytes,
                hdr.name@ + ": packed size overflows host address space"@,
            ),
        },
{
    if packed_size > usize::MAX as u64 {
        return Err(
            limit_error(
                max_packed_bytes,
                hdr.name.as_str(),
                ": packed size overflows host address space",
            ),
        );
    }
    Ok(packed_size as usize)
}

/// A chunk's bytes lie in its volume; one without bytes needs the volume only.
pub open spec fn chunk_present(volumes: Seq<Seq<u8>>, c: DataChunk) -> bool {
    c.volume_index < volumes.len() && (c.packed_size == 0 || c.data_offset + c.packed_size
        <= volumes[c.volume_index as int].len())
}

/// The bytes of a chunk.
pub open spec fn chunk_bytes(volumes: Seq<Seq<u8>>, c: DataChunk) -> Seq<u8> {
    if c.packed_size == 0 {
        Seq::empty()
    } else {
        volumes[c.volume_index as int].subrange(
            c.data_offset as int,
            c.data_offset + c.packed_size,
        )
    }
}

/// The bytes of a member's chunks, one after the other.
pub open spec fn payload_of(volumes: Seq<Seq<u8>>, chunks: Seq<DataChunk>) -> Seq<u8>
    decreases chunks.len(),
{
    if chunks.len() == 0 {
        Seq::empty()
    } else {
        payload_of(volumes, chunks.drop_last()) + chunk_bytes(volumes, chunks.last())
    }
}

/// The bytes that volumes hold.
pub open spec fn contents(volumes: Seq<Vec<u8>>) -> Seq<Seq<u8>> {
    Seq::new(volumes.len(), |i: int| volumes[i]@)
}

/// All chunks' bytes lie in their volumes.
pub open spec fn all_present(volumes: Seq<Seq<u8>>, chunks: Seq<DataChunk>) -> bool {
    forall|i: int| 0 <= i < chunks.len() ==> chunk_present(volumes, #[trigger] chunks[i])
}

/// `e` reports the first chunk that is not there: its volume is missing, or
/// ends before the chunk does.
pub open spec fn reports_absent(
    volumes: Seq<Seq<u8>>,
    chunks: Seq<DataChunk>,
    e: RarError,
) -> bool {
    exists|i: int| #[trigger]
        is_first_absent(volumes, chunks, i) && if chunks[i].volume_index >= volumes.len() {
            is_format(e, "RAR4: chunk volume out of range"@)
        } else {
            e is Io
        }
}

/// Chunk `i` is the first that is not there.
pub open spec fn is_first_absent(volumes: Seq<Seq<u8>>, chunks: Seq<DataChunk>, i: int) -> bool {
    &&& 0 <= i < chunks.len()
    &&& !chunk_present(volumes, chunks[i])
    &&& forall|j: int| 0 <= j < i ==> chunk_present(volumes, #[trigger] chunks[j])
}

/// A chunk's bytes. A chunk outside the set's volumes, or past the end of its
/// volume, is an error.
pub fn read_chunk<'a>(volumes: &'a [Vec<u8>], c: &DataChunk) -> (r: RarResult<&'a [u8]>)
    ensures
        match r {
            Ok(b) => chunk_present(contents(volumes@), *c) && b@ == chunk_bytes(
                contents(volumes@),
                *c,
            ) && b@.len() == c.packed_size,
            Err(e) => !chunk_present(contents(volumes@), *c) && if c.volume_index
                >= volumes@.len() {
                is_format(e, "RAR4: chunk volume out of range"@)
            } else {
                e is Io
            },
        },
{
    if c.volume_index >= volumes.len() {
        return Err(RarError::format("RAR4: chunk volume out of range"));
    }
    let volume = volumes[c.volume_index].as_slice();
    assert(contents(volumes@)[c.volume_index as int] == volume@);
    if c.packed_size == 0 {
        let none = slice_subrange(volume, 0, 0);
        assert(none@ =~= Seq::<u8>::empty());
        return Ok(none);
    }
    let have = volume.len() as u64;
    if c.data_offset > have || c.packed_size > have - c.data_offset {
        return Err(RarError::Io(unexpected_eof()));
    }
    let from = c.data_offset as usize;
    let to = from + c.packed_size as usize;
    Ok(slice_subrange(volume, from, to))
}

/// Read a member's payload: its chunks' bytes, one after the other.
pub fn read_packed_payload(volumes: &[Vec<u8>], chunks: &[DataChunk]) -> (r: RarResult<Vec<u8>>)
    requires
        packed_total(chunks@) <= usize::MAX,
    ensures
        match r {
            Ok(p) => all_present(contents(volumes@), chunks@) && p@ == payload_of(
                contents(volumes@),
                chunks@,
            ) && p@.len() == packed_total(chunks@),
            Err(e) => reports_absent(contents(volumes@), chunks@, e),
        },
{
    let ghost vols = contents(volumes@);
    let mut packed: Vec<u8> = Vec::new();
    let mut i: usize = 0;
    while i < chunks.len()
        invariant
            i <= chunks@.len(),
            vols == contents(volumes@),
            packed_total(chunks@) <= usize::MAX,
            packed@ == payload_of(vols, chunks@.take(i as int)),
            packed@.len() == packed_total(chunks@.take(i as int)),
            forall|j: int| 0 <= j < i ==> chunk_present(vols, #[trigger] chunks@[j]),
        decreases chunks@.len() - i,
    {
        proof {
            assert(chunks@.take(i + 1).drop_last() =~= chunks@.take(i as int));
            lemma_total_grows(chunks@, i + 1);
        }
        let bytes = match read_chunk(volumes, &chunks[i]) {
            Ok(b) => b,
            Err(e) => {
                assert(is_first_absent(vols, chunks@, i as int));
                return Err(e);
            },
        };
        let ghost before = packed@;
        packed.extend_from_slice(bytes);
        assert(packed@ =~= before + bytes@);
        i += 1;
    }
    assert(chunks@.take(i as int) =~= chunks@);
    Ok(packed)
}

/// Check that a decoder made what the header announces.
pub fn validate_output_size(hdr: &FileHeader, actual: u64) -> (r: RarResult<()>)
    ensures
        match r {
            Ok(_) => actual == hdr.unpacked_size,
            Err(e) => actual != hdr.unpacked_size && is_format(
                e,
                "RAR4: "@ + hdr.name@ + ": decoded size "@ + decimal(actual as nat)
                    + " does not match declared unpacked size "@ + decimal(
                    hdr.unpacked_size as nat,
                ),
            ),
        },
{
    if actual != hdr.unpacked_size {
        return Err(
            RarError::Format(
                sentence(
                    "RAR4: ",
                    hdr.name.as_str(),
                    ": decoded size ",
                    actual,
                    " does not match declared unpacked size ",
                    hdr.unpacked_size,
                ),
            ),
        );
    }
    Ok(())
}

/// What a codec's error becomes for the caller: of an encrypted member a
/// wrong password and a damaged stream cannot be told apart.
pub open spec fn mapped_error(hdr: FileHeader, error: RarError) -> RarError {
    if spec_encrypted(hdr) && (error is Crc || error is Format || error is Unsupported) {
        RarError::WrongPassword
    } else {
        error
    }
}

/// What a codec's error becomes for the caller.
pub fn map_codec_error(hdr: &FileHeader, error: RarError) -> (r: RarError)
    ensures
        r == mapped_error(*hdr, error),
{
    if !is_member_encrypted(hdr) {
        return error;
    }
    match error {
        RarError::Crc { expected: _, actual: _, context: _ } => RarError::WrongPassword,
        RarError::Format(_) => RarError::WrongPassword,
        RarError::Unsupported(_) => RarError::WrongPassword,
        other => other,
    }
}

/// The CRC-32 of a member's bytes.
pub fn member_crc(data: &[u8]) -> (r: u32)
    ensures
        r == spec_crc32(data@),
{
    crc32(data)
}

/// The checksum that a member's header stores: RAR 1.3 members have a rolling
/// one of 16 bits.
pub open spec fn spec_member_checksum(hdr: FileHeader, data: Seq<u8>) -> u32 {
    if hdr.format_version == 3 {
        rolling_from(0, data) as u32
    } else {
        spec_crc32(data)
    }
}

/// What comparing a member's checksum comes to. Of an encrypted member a
/// mismatch is a wrong password.
pub open spec fn checksum_verdict(hdr: FileHeader, actual: u32, r: RarResult<()>) -> bool {
    if hdr.crc32_val == None::<u32> || hdr.crc32_val == Some(actual) {
        r is Ok
    } else if spec_encrypted(hdr) {
        r matches Err(RarError::WrongPassword)
    } else {
        r is Err && crate::error::is_crc(
            r->Err_0,
            hdr.crc32_val->Some_0,
            actual,
            hdr.name@ + ": checksum mismatch"@,
        )
    }
}

/// Compare a member's stored checksum with the computed one.
pub fn verify_member_crc(hdr: &FileHeader, actual: u32) -> (r: RarResult<()>)
    ensures
        checksum_verdict(*hdr, actual, r),
{
    match hdr.crc32_val {
        Some(expected) => {
            if actual != expected {
                let context = crate::text::joined(hdr.name.as_str(), ": checksum mismatch");
                return Err(map_codec_error(hdr, RarError::Crc { expected, actual, context }));
            }
            Ok(())
        },
        None => Ok(()),
    }
}

/// Compare a member's stored checksum with that of its bytes.
pub fn rar4_verify_crc(hdr: &FileHeader, data: &[u8]) -> (r: RarResult<()>)
    ensures
        checksum_verdict(*hdr, spec_member_checksum(*hdr, data@), r),
{
    let actual = if hdr.format_version == 3 {
        file_checksum(data) as u32
    } else {
        member_crc(data)
    };
    verify_member_crc(hdr, actual)
}

/// Counts bytes and checks them in as they stream past, so that a member's
/// integrity is known without its output at hand.
pub struct CrcWriter {
    count: u64,
    crc: u32,
    rar13_checksum: u16,
    limit: u64,
    past: Ghost<Seq<u8>>,
}

impl CrcWriter {
    /// What has been written.
    pub closed spec fn written(self) -> Seq<u8> {
        self.past@
    }

    /// Most that may be written.
    pub closed spec fn limit(self) -> u64 {
        self.limit
    }

    /// The checksums are those of what has been written, which is within the
    /// limit.
    pub closed spec fn wf(self) -> bool {
        &&& self.crc == spec_crc32(self.past@)
        &&& self.rar13_checksum == rolling_from(0, self.past@)
        &&& self.count == self.past@.len()
        &&& self.count <= self.limit
    }

    /// Nothing written, with a limit.
    pub fn new(limit: u64) -> (r: CrcWriter)
        ensures
            r.wf(),
            r.written() == Seq::<u8>::empty(),
            r.limit() == limit,
    {
        let none: [u8; 0] = [];
        let crc = crc32(none.as_slice());
        assert(none@ =~= Seq::<u8>::empty());
        CrcWriter { count: 0, crc, rar13_checksum: 0, limit, past: Ghost(Seq::empty()) }
    }

    /// Check `buf` in, if it stays within the limit.
    pub fn write(&mut self, buf: &[u8]) -> (r: RarResult<()>)
        requires
            old(self).wf(),
        ensures
            final(self).wf(),
            final(self).limit() == old(self).limit(),
            match r {
                Ok(_) => {
                    &&& old(self).written().len() + buf@.len() <= old(self).limit()
                    &&& final(self).written() == old(self).written() + buf@
                },
                Err(e) => {
                    &&& old(self).written().len() + buf@.len() > old(self).limit()
                    &&& final(self).written() == old(self).written()
                    &&& e is Io
                },
            },
    {
        if buf.len() as u64 > self.limit - self.count {
            return Err(
                RarError::Io(
                    invalid_data(
                        crate::text::with_number(
                            "RAR4 decoder attempted to write beyond declared unpacked size ",
                            self.limit,
                            "",
                        ),
                    ),
                ),
            );
        }
        let ghost before = self.past@;
        self.crc = crc32_update(self.crc, buf);
        self.rar13_checksum = rolling_checksum(self.rar13_checksum, buf);
        self.count = self.count + buf.len() as u64;
        self.past = Ghost(before + buf@);
        proof {
            lemma_rolling_concat(0, before, buf@);
        }
        Ok(())
    }

    /// What has been written keeps to the limit.
    pub proof fn lemma_within(self)
        requires
            self.wf(),
        ensures
            self.written().len() <= self.limit(),
    {
    }

    /// How much was written, its CRC-32 and its rolling checksum.
    pub fn finish(self) -> (r: (u64, u32, u16))
        requires
            self.wf(),
        ensures
            r.0 == self.written().len(),
            r.1 == spec_crc32(self.written()),
            r.2 == rolling_from(0, self.written()),
    {
        (self.count, self.crc, self.rar13_checksum)
    }
}

/// How far a member's decoding has come: its bytes are there, or the cipher
/// or the decoder of a codec has to work on its payload.
pub enum MemberStep {
    /// The member's bytes.
    Done(Vec<u8>),
    /// The chunks are copied through one after the other.
    Copy,
    /// The codec's cipher decrypts the payload next.
    Decrypt { codec: LegacyCodec, packed: Vec<u8> },
    /// The codec's decoder unpacks the payload next. In a solid chain it is
    /// the chain's own.
    Unpack { codec: LegacyCodec, packed: Vec<u8>, solid: bool },
}

/// The limits of a member's decoding, and what it has at hand.
pub struct MemberDecodeOptions<'a> {
    pub password: Option<&'a str>,
    /// Codec of the solid chain's decoder, inside one.
    pub decoder: Option<LegacyCodec>,
    /// Most packed bytes of a payload that is assembled in memory.
    pub max_alloc_packed_bytes: u64,
    /// Most packed bytes of a payload that is copied through.
    pub max_stream_packed_bytes: u64,
}

/// The name of a codec in messages.
pub open spec fn codec_name(codec: LegacyCodec) -> Seq<char> {
    match codec {
        LegacyCodec::Rar15 => "RAR15"@,
        LegacyCodec::Rar20 => "RAR20"@,
        LegacyCodec::Rar29 => "RAR29"@,
    }
}

fn name_of_codec(codec: LegacyCodec) -> (s: &'static str)
    ensures
        s@ == codec_name(codec),
{
    match codec {
        LegacyCodec::Rar15 => "RAR15",
        LegacyCodec::Rar20 => "RAR20",
        LegacyCodec::Rar29 => "RAR29",
    }
}

/// The message of a stored payload that is too short, from "STORE" on. A
/// streamed one is always an encrypted one, and says so.
pub open spec fn short_payload(streaming: bool) -> Seq<char> {
    if streaming {
        ": encrypted STORE payload is shorter than declared unpacked size "@
    } else {
        ": STORE payload is shorter than declared unpacked size "@
    }
}

/// What decoding a decrypted payload comes to: a stored one is cut to its
/// size, a compressed one goes to its codec's decoder.
pub open spec fn unpack_step(
    hdr: FileHeader,
    packed: Seq<u8>,
    decoder: Option<LegacyCodec>,
    streaming: bool,
    r: RarResult<MemberStep>,
) -> bool {
    if hdr.unpacked_size > usize::MAX {
        r is Err && is_limit(
            r->Err_0,
            hdr.unpacked_size,
            hdr.name@ + ": unpacked size overflows host address space"@,
        )
    } else if hdr.comp_method == 0 {
        if !spec_encrypted(hdr) && packed.len() != hdr.unpacked_size {
            r is Err && is_format(
                r->Err_0,
                "RAR4: "@ + hdr.name@ + ": STORE packed size "@ + decimal(packed.len())
                    + " does not match unpacked size "@ + decimal(hdr.unpacked_size as nat),
            )
        } else if packed.len() < hdr.unpacked_size {
            r is Err && is_format(
                r->Err_0,
                "RAR4: "@ + hdr.name@ + short_payload(streaming) + decimal(
                    hdr.unpacked_size as nat,
                ),
            )
        } else {
            r matches Ok(MemberStep::Done(data)) && data@ == packed.take(hdr.unpacked_size as int)
        }
    } else {
        match spec_codec(hdr.unp_ver) {
            None => r is Err && is_unsupported(
                r->Err_0,
                "RAR4 compressed member with unsupported unpack version "@ + decimal(
                    hdr.unp_ver as nat,
                ) + ""@,
            ),
            Some(codec) => match decoder {
                Some(d) => if d == codec {
                    r matches Ok(MemberStep::Unpack { codec: c, packed: p, solid }) && c == codec
                        && p@ == packed && solid
                } else {
                    r is Err && is_format(
                        r->Err_0,
                        "RAR4: "@ + codec_name(codec) + " member in a solid chain carrying the "@
                            + codec_name(d) + " decoder"@,
                    )
                },
                None => r matches Ok(MemberStep::Unpack { codec: c, packed: p, solid }) && c
                    == codec && p@ == packed && !solid,
            },
        }
    }
}

/// Go on with a decrypted payload.
pub fn resume_decrypted(
    hdr: &FileHeader,
    packed: Vec<u8>,
    decoder: Option<LegacyCodec>,
    streaming: bool,
) -> (r: RarResult<MemberStep>)
    ensures
        unpack_step(*hdr, packed@, decoder, streaming, r),
{
    if hdr.unpacked_size > usize::MAX as u64 {
        return Err(
            limit_error(
                hdr.unpacked_size,
                hdr.name.as_str(),
                ": unpacked size overflows host address space",
            ),
        );
    }
    let unp_size = hdr.unpacked_size as usize;
    if hdr.comp_method == 0 {
        if !is_member_encrypted(hdr) && packed.len() != unp_size {
            return Err(
                RarError::Format(
                    sentence(
                        "RAR4: ",
                        hdr.name.as_str(),
                        ": STORE packed size ",
                        packed.len() as u64,
                        " does not match unpacked size ",
                        hdr.unpacked_size,
                    ),
                ),
            );
        }
        if packed.len() < unp_size {
            let mut s = String::new();
            s.append("RAR4: ");
            s.append(hdr.name.as_str());
            if streaming {
                s.append(": encrypted STORE payload is shorter than declared unpacked size ");
            } else {
                s.append(": STORE payload is shorter than declared unpacked size ");
            }
            push_decimal(&mut s, hdr.unpacked_size);
            assert(s@ =~= "RAR4: "@ + hdr.name@ + short_payload(streaming) + decimal(
                hdr.unpacked_size as nat,
            ));
            return Err(RarError::Format(s));
        }
        let data = slice_to_vec(slice_subrange(packed.as_slice(), 0, unp_size));
        assert(data@ =~= packed@.take(unp_size as int));
        return Ok(MemberStep::Done(data));
    }
    let codec = match LegacyCodec::from_unp_ver(hdr.unp_ver) {
        Some(c) => c,
        None => {
            return Err(
                RarError::Unsupported(
                    crate::text::with_number(
                        "RAR4 compressed member with unsupported unpack version ",
                        hdr.unp_ver as u64,
                        "",
                    ),
                ),
            );
        },
    };
    match decoder {
        Some(d) => {
            if d != codec {
                let mut s = String::new();
                s.append("RAR4: ");
                s.append(name_of_codec(codec));
                s.append(" member in a solid chain carrying the ");
                s.append(name_of_codec(d));
                s.append(" decoder");
                assert(s@ =~= "RAR4: "@ + codec_name(codec)
                    + " member in a solid chain carrying the "@ + codec_name(d) + " decoder"@);
                return Err(RarError::Format(s));
            }
            Ok(MemberStep::Unpack { codec, packed, solid: true })
        },
        None => Ok(MemberStep::Unpack { codec, packed, solid: false }),
    }
}

/// What decoding an assembled payload comes to. RAR 1.3 payloads are
/// decrypted here, others by their codec's cipher.
pub open spec fn payload_step(
    hdr: FileHeader,
    packed: Seq<u8>,
    password: Option<Seq<char>>,
    decoder: Option<LegacyCodec>,
    streaming: bool,
    r: RarResult<MemberStep>,
) -> bool {
    if !spec_encrypted(hdr) {
        unpack_step(hdr, packed, decoder, streaming, r)
    } else {
        match password {
            None => r is Err && is_encrypted(
                r->Err_0,
                hdr.name@ + ": encrypted member, no password provided"@,
            ),
            Some(pw) => if hdr.format_version == 3 {
                unpack_step(
                    hdr,
                    rar13_decrypted(password_key(clamped(encode_utf8(pw))), packed),
                    decoder,
                    streaming,
                    r,
                )
            } else {
                match spec_codec(hdr.unp_ver) {
                    None => r is Err && is_unsupported(
                        r->Err_0,
                        "RAR4 encryption unpack version "@ + decimal(hdr.unp_ver as nat)
                            + " not supported"@,
                    ),
                    Some(codec) => r matches Ok(MemberStep::Decrypt { codec: c, packed: p }) && c
                        == codec && p@ == packed,
                }
            },
        }
    }
}

fn start_payload(
    hdr: &FileHeader,
    packed: Vec<u8>,
    password: Option<&str>,
    decoder: Option<LegacyCodec>,
    streaming: bool,
) -> (r: RarResult<MemberStep>)
    ensures
        payload_step(
            *hdr,
            packed@,
            match password {
                Some(p) => Some(p@),
                None => None,
            },
            decoder,
            streaming,
            r,
        ),
{
    if !is_member_encrypted(hdr) {
        return resume_decrypted(hdr, packed, decoder, streaming);
    }
    let password = match password {
        Some(p) => p,
        None => {
            return Err(
                RarError::Encrypted(
                    crate::text::joined(
                        hdr.name.as_str(),
                        ": encrypted member, no password provided",
                    ),
                ),
            );
        },
    };
    if hdr.format_version == 3 {
        let mut data = packed;
        Rar13Cipher::new(password.as_bytes()).decrypt_in_place(&mut data);
        return resume_decrypted(hdr, data, decoder, streaming);
    }
    match LegacyCodec::from_unp_ver(hdr.unp_ver) {
        Some(codec) => Ok(MemberStep::Decrypt { codec, packed }),
        None => Err(
            RarError::Unsupported(
                crate::text::with_number(
                    "RAR4 encryption unpack version ",
                    hdr.unp_ver as u64,
                    " not supported",
                ),
            ),
        ),
    }
}

/// What decoding a member comes to, up to the first outside work: its sizes
/// are checked before anything is read, an empty member is empty, and the
/// payload of another is read whole.
pub open spec fn member_step(
    volumes: Seq<Seq<u8>>,
    chunks: Seq<DataChunk>,
    hdr: FileHeader,
    password: Option<Seq<char>>,
    decoder: Option<LegacyCodec>,
    max_packed_bytes: u64,
    streaming: bool,
    r: RarResult<MemberStep>,
) -> bool {
    if !sizes_in_order(chunks, hdr, max_packed_bytes) {
        r is Err && size_fault(chunks, hdr, max_packed_bytes, r->Err_0)
    } else if hdr.packed_size == 0 && hdr.unpacked_size == 0 {
        r matches Ok(MemberStep::Done(data)) && data@.len() == 0
    } else if streaming && hdr.unpacked_size > usize::MAX {
        r is Err && is_limit(
            r->Err_0,
            hdr.unpacked_size,
            hdr.name@ + ": unpacked size overflows host address space"@,
        )
    } else if hdr.packed_size > usize::MAX {
        r is Err && is_limit(
            r->Err_0,
            max_packed_bytes,
            hdr.name@ + ": packed size overflows host address space"@,
        )
    } else if !all_present(volumes, chunks) {
        r is Err && reports_absent(volumes, chunks, r->Err_0)
    } else {
        payload_step(hdr, payload_of(volumes, chunks), password, decoder, streaming, r)
    }
}

fn decode_assembled(
    volumes: &[Vec<u8>],
    chunks: &[DataChunk],
    hdr: &FileHeader,
    options: MemberDecodeOptions<'_>,
    streaming: bool,
) -> (r: RarResult<MemberStep>)
    ensures
        member_step(
            contents(volumes@),
            chunks@,
            *hdr,
            match options.password {
                Some(p) => Some(p@),
                None => None,
            },
            options.decoder,
            options.max_alloc_packed_bytes,
            streaming,
            r,
        ),
{
    let packed_size = match checked_packed_size(chunks, hdr, options.max_alloc_packed_bytes) {
        Ok(n) => n,
        Err(e) => {
            return Err(e);
        },
    };
    if hdr.packed_size == 0 && hdr.unpacked_size == 0 {
        return Ok(MemberStep::Done(Vec::new()));
    }
    if streaming && hdr.unpacked_size > usize::MAX as u64 {
        return Err(
            limit_error(
                hdr.unpacked_size,
                hdr.name.as_str(),
                ": unpacked size overflows host address space",
            ),
        );
    }
    match packed_len_for_allocation(hdr, packed_size, options.max_alloc_packed_bytes) {
        Ok(_) => {},
        Err(e) => {
            return Err(e);
        },
    }
    let packed = match read_packed_payload(volumes, chunks) {
        Ok(p) => p,
        Err(e) => {
            return Err(e);
        },
    };
    start_payload(hdr, packed, options.password, options.decoder, streaming)
}

/// Decode a member into memory, up to the first outside work. `volumes` are
/// the bytes of the set's volumes.
pub fn decode_member_bytes(
    volumes: &[Vec<u8>],
    chunks: &[DataChunk],
    hdr: &FileHeader,
    options: MemberDecodeOptions<'_>,
) -> (r: RarResult<MemberStep>)
    ensures
        member_step(
            contents(volumes@),
            chunks@,
            *hdr,
            match options.password {
                Some(p) => Some(p@),
                None => None,
            },
            options.decoder,
            options.max_alloc_packed_bytes,
            false,
            r,
        ),
{
    decode_assembled(volumes, chunks, hdr, options, false)
}

/// What a decoder's result becomes: of an error what the caller sees, of
/// bytes the bytes, if they are as many as announced.
pub open spec fn unpacked_result(
    hdr: FileHeader,
    unpacked: RarResult<Vec<u8>>,
    r: RarResult<Vec<u8>>,
) -> bool {
    match unpacked {
        Err(e) => r == Err::<Vec<u8>, RarError>(mapped_error(hdr, e)),
        Ok(data) => if data@.len() == hdr.unpacked_size {
            r == Ok::<Vec<u8>, RarError>(data)
        } else {
            r is Err && is_format(
                r->Err_0,
                "RAR4: "@ + hdr.name@ + ": decoded size "@ + decimal(data@.len())
                    + " does not match declared unpacked size "@ + decimal(
                    hdr.unpacked_size as nat,
                ),
            )
        },
    }
}

/// Go on with what a decoder made of the payload.
pub fn resume_unpacked(hdr: &FileHeader, unpacked: RarResult<Vec<u8>>) -> (r: RarResult<Vec<u8>>)
    ensures
        unpacked_result(*hdr, unpacked, r),
{
    match unpacked {
        Err(e) => Err(map_codec_error(hdr, e)),
        Ok(data) => match validate_output_size(hdr, data.len() as u64) {
            Ok(_) => Ok(data),
            Err(e) => Err(e),
        },
    }
}

/// What streaming a member comes to, up to the first outside work. A plain
/// stored member is copied through, under its own limit; its sizes must
/// agree.
pub open spec fn stream_step(
    volumes: Seq<Seq<u8>>,
    chunks: Seq<DataChunk>,
    hdr: FileHeader,
    password: Option<Seq<char>>,
    decoder: Option<LegacyCodec>,
    max_alloc: u64,
    max_stream: u64,
    r: RarResult<MemberStep>,
) -> bool {
    if hdr.comp_method == 0 && !spec_encrypted(hdr) {
        if !sizes_in_order(chunks, hdr, max_stream) {
            r is Err && size_fault(chunks, hdr, max_stream, r->Err_0)
        } else if hdr.packed_size == 0 && hdr.unpacked_size == 0 {
            r matches Ok(MemberStep::Done(data)) && data@.len() == 0
        } else if hdr.packed_size != hdr.unpacked_size {
            r is Err && is_format(
                r->Err_0,
                "RAR4: "@ + hdr.name@ + ": STORE packed size "@ + decimal(hdr.packed_size as nat)
                    + " does not match unpacked size "@ + decimal(hdr.unpacked_size as nat),
            )
        } else if !all_present(volumes, chunks) {
            r is Err && reports_absent(volumes, chunks, r->Err_0)
        } else {
            r matches Ok(MemberStep::Copy)
        }
    } else {
        member_step(volumes, chunks, hdr, password, decoder, max_alloc, true, r)
    }
}

proof fn lemma_present_total(volumes: Seq<Seq<u8>>, chunks: Seq<DataChunk>)
    requires
        all_present(volumes, chunks),
    ensures
        payload_of(volumes, chunks).len() == packed_total(chunks),
    decreases chunks.len(),
{
    if chunks.len() > 0 {
        assert(all_present(volumes, chunks.drop_last())) by {
            assert forall|i: int| 0 <= i < chunks.drop_last().len() implies chunk_present(
                volumes,
                #[trigger] chunks.drop_last()[i],
            ) by {
                assert(chunk_present(volumes, chunks[i]));
            }
        }
        lemma_present_total(volumes, chunks.drop_last());
        assert(chunk_present(volumes, chunks[chunks.len() - 1]));
    }
}

/// Check that all chunks' bytes lie in their volumes.
fn check_present(volumes: &[Vec<u8>], chunks: &[DataChunk]) -> (r: RarResult<()>)
    ensures
        match r {
            Ok(_) => all_present(contents(volumes@), chunks@),
            Err(e) => !all_present(contents(volumes@), chunks@) && reports_absent(
                contents(volumes@),
                chunks@,
                e,
            ),
        },
{
    let mut i: usize = 0;
    while i < chunks.len()
        invariant
            i <= chunks@.len(),
            forall|j: int|
                0 <= j < i ==> chunk_present(contents(volumes@), #[trigger] chunks@[j]),
        decreases chunks@.len() - i,
    {
        match read_chunk(volumes, &chunks[i]) {
            Ok(_) => {},
            Err(e) => {
                assert(is_first_absent(contents(volumes@), chunks@, i as int));
                return Err(e);
            },
        }
        i += 1;
    }
    Ok(())
}

/// Decode a member for streaming, up to the first outside work.
pub fn decode_member_bytes_to(
    volumes: &[Vec<u8>],
    chunks: &[DataChunk],
    hdr: &FileHeader,
    options: MemberDecodeOptions<'_>,
) -> (r: RarResult<MemberStep>)
    ensures
        stream_step(
            contents(volumes@),
            chunks@,
            *hdr,
            match options.password {
                Some(p) => Some(p@),
                None => None,
            },
            options.decoder,
            options.max_alloc_packed_bytes,
            options.max_stream_packed_bytes,
            r,
        ),
{
    if hdr.comp_method != 0 || is_member_encrypted(hdr) {
        return decode_assembled(volumes, chunks, hdr, options, true);
    }
    match checked_packed_size(chunks, hdr, options.max_stream_packed_bytes) {
        Ok(_) => {},
        Err(e) => {
            return Err(e);
        },
    }
    if hdr.packed_size == 0 && hdr.unpacked_size == 0 {
        return Ok(MemberStep::Done(Vec::new()));
    }
    if hdr.packed_size != hdr.unpacked_size {
        return Err(
            RarError::Format(
                sentence(
                    "RAR4: ",
                    hdr.name.as_str(),
                    ": STORE packed size ",
                    hdr.packed_size,
                    " does not match unpacked size ",
                    hdr.unpacked_size,
                ),
            ),
        );
    }
    match check_present(volumes, chunks) {
        Ok(_) => Ok(MemberStep::Copy),
        Err(e) => Err(e),
    }
}

/// Check a stored member in as its chunks are copied through, without
/// assembling it: how much it is, its CRC-32 and its rolling checksum.
pub fn stream_stored(volumes: &[Vec<u8>], chunks: &[DataChunk], hdr: &FileHeader) -> (r: RarResult<
    (u64, u32, u16),
>)
    ensures
        ({
            let vols = contents(volumes@);
            let payload = payload_of(vols, chunks@);
            match r {
                Ok((n, crc, sum)) => {
                    &&& all_present(vols, chunks@)
                    &&& payload.len() == hdr.unpacked_size
                    &&& n == payload.len()
                    &&& crc == spec_crc32(payload)
                    &&& sum == rolling_from(0, payload)
                },
                Err(e) => {
                    ||| reports_absent(vols, chunks@, e)
                    ||| e is Io && exists|k: int|
                        0 <= k <= chunks@.len() && all_present(vols, chunks@.take(k))
                            && #[trigger] payload_of(vols, chunks@.take(k)).len()
                            > hdr.unpacked_size
                    ||| all_present(vols, chunks@) && payload.len() < hdr.unpacked_size
                        && is_format(
                        e,
                        "RAR4: "@ + hdr.name@ + ": decoded size "@ + decimal(payload.len())
                            + " does not match declared unpacked size "@ + decimal(
                            hdr.unpacked_size as nat,
                        ),
                    )
                },
            }
        }),
{
    let ghost vols = contents(volumes@);
    let mut w = CrcWriter::new(hdr.unpacked_size);
    let mut i: usize = 0;
    assert(chunks@.take(0) =~= Seq::<DataChunk>::empty());
    while i < chunks.len()
        invariant
            i <= chunks@.len(),
            vols == contents(volumes@),
            w.wf(),
            w.limit() == hdr.unpacked_size,
            w.written() == payload_of(vols, chunks@.take(i as int)),
            forall|j: int| 0 <= j < i ==> chunk_present(vols, #[trigger] chunks@[j]),
        decreases chunks@.len() - i,
    {
        let bytes = match read_chunk(volumes, &chunks[i]) {
            Ok(b) => b,
            Err(e) => {
                assert(is_first_absent(vols, chunks@, i as int));
                return Err(e);
            },
        };
        assert(chunks@.take(i + 1).drop_last() =~= chunks@.take(i as int));
        match w.write(bytes) {
            Ok(_) => {},
            Err(e) => {
                proof {
                    let k = i + 1;
                    assert forall|j: int| 0 <= j < k implies chunk_present(
                        vols,
                        #[trigger] chunks@.take(k)[j],
                    ) by {
                        assert(chunks@.take(k)[j] == chunks@[j]);
                    }
                    assert(payload_of(vols, chunks@.take(k)).len() > hdr.unpacked_size);
                }
                return Err(e);
            },
        }
        i += 1;
    }
    assert(chunks@.take(i as int) =~= chunks@);
    let (n, crc, sum) = w.finish();
    proof {
        assert(n <= hdr.unpacked_size) by {
            w.lemma_within();
        }
    }
    match validate_output_size(hdr, n) {
        Ok(_) => Ok((n, crc, sum)),
        Err(e) => Err(e),
    }
}

/// What the bytes of a streamed member come to: how many they are, their
/// CRC-32 and their rolling checksum, if they are as many as announced.
pub fn finish_stream(hdr: &FileHeader, data: &[u8]) -> (r: RarResult<(u64, u32, u16)>)
    ensures
        match r {
            Ok((n, crc, sum)) => {
                &&& data@.len() == hdr.unpacked_size
                &&& n == data@.len()
                &&& crc == spec_crc32(data@)
                &&& sum == rolling_from(0, data@)
            },
            Err(e) => if data@.len() > hdr.unpacked_size {
                e is Io
            } else {
                data@.len() < hdr.unpacked_size && is_format(
                    e,
                    "RAR4: "@ + hdr.name@ + ": decoded size "@ + decimal(data@.len())
                        + " does not match declared unpacked size "@ + decimal(
                        hdr.unpacked_size as nat,
                    ),
                )
            },
        },
{
    let mut w = CrcWriter::new(hdr.unpacked_size);
    let n = data.len();
    match w.write(data) {
        Ok(_) => {},
        Err(e) => {
            return Err(e);
        },
    }
    assert(w.written() =~= data@);
    match validate_output_size(hdr, n as u64) {
        Ok(_) => {},
        Err(e) => {
            return Err(e);
        },
    }
    let (_, crc, sum) = w.finish();
    Ok((n as u64, crc, sum))
}

} // verus!
