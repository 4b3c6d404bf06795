//! A binary codec: LZSS compression with an additive checksum trailer, and the
//! companion variable-length unsigned integer format, both over in-memory byte
//! streams. Every function carries a contract that Verus proves.

pub mod io;
