//! RAR archive formats: the compression codec, the ciphers and the container
//! headers, with their behaviour stated as contracts.

pub mod bytes;
pub mod codec;
pub mod crc32;
pub mod crypto;
pub mod detect;
pub mod engine;
pub mod error;
pub mod features;
pub mod laws;
pub mod model;
pub mod rar13;
pub mod rar4;
pub mod rar5;
pub mod shared;
pub mod text;
pub mod unicode;
pub mod version;
