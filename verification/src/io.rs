//! Byte streams and the codecs that read and write them.

pub mod common;
pub mod compression;
