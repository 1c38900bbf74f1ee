//! What the legacy containers share.

pub mod checksum;
pub mod laws;
pub mod legacy_time;
pub mod split;
