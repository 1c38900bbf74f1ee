# rar

RAR archive formats as a verified library: the RAR5 compression codec, the
ciphers and key derivation, and the headers, members and volumes of the RAR
1.3/1.4 and RAR 1.5 to 4.x containers. The functions in `src/` carry contracts
that Verus proves, but for the wrappers named under "What is trusted" and for
`fresh_salt`, of whose random bytes nothing can be said.

## Layout

| Path | What it holds |
| --- | --- |
| `src/codec/` | The RAR5 codec: bit streams, prefix codes, match finding, parsing, filters, window, encoder and decoders, and the proof that what is encoded decodes to itself. |
| `src/crypto/` | Passwords, PBKDF2 keys, AES in CBC mode, the RAR 1.3 cipher, encryption records. |
| `src/rar13/` | The RAR 1.3/1.4 container: headers, volumes, split members. |
| `src/rar4/` | The RAR 1.5 to 4.x container: blocks, names, times, comments, members, volumes, solid chains, batches. |
| `src/rar5/` | Variable-length integers and block framing. |
| `src/shared/` | Checksums, DOS times and split members, for both older containers. |
| `src/engine/`, `src/model.rs` | Catalog entries. |
| `app/` | Files, threads and streams around the library. |
| `tests/` | Tests on concrete archives. |

## What is trusted

Block ciphers, hashes, CRC-32, randomness and the wiping of keys come from
outside crates. Each is called in one place, behind a wrapper whose doc comment
says what is claimed of it: `src/crc32.rs`, `src/crypto/primitives.rs`,
`src/unicode.rs`, `src/error.rs`, and the I/O errors in `src/rar4/read.rs` and
`src/rar4/stream.rs`.

Compressing and decrypting the older versions' payloads is left to the caller:
the library decides what has to be done, says so, and takes the result.
