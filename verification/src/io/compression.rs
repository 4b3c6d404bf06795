//! The compressed forms: sliding-window LZSS blocks and variable-length
//! integers.

pub mod bis_int;
pub mod lzss;

pub use crate::io::compression::bis_int::bis_int_len;

use crate::io::common::{ByteReader, CommonReadExt, CommonWriteExt};
use crate::io::compression::bis_int::{IntCompressionReadExt, IntCompressionWriteExt};
use crate::io::compression::lzss::{LzssCompressionReadExt, LzssCompressionWriteExt};
use vstd::prelude::*;

verus! {

/// Everything that can be read from a byte source: LZSS blocks,
/// variable-length integers and strings.
pub trait CompressionReadExt: LzssCompressionReadExt + IntCompressionReadExt + CommonReadExt {

}

impl<'a> CompressionReadExt for ByteReader<'a> {

}

/// Everything that can be written to a byte sink: LZSS blocks,
/// variable-length integers and strings.
pub trait CompressionWriteExt: LzssCompressionWriteExt + IntCompressionWriteExt + CommonWriteExt {

}

impl CompressionWriteExt for Vec<u8> {

}

} // verus!
