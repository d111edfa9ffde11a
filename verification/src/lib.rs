//! LZSS-style codec for game-data archives: a compressor (`collapse`) and a
//! decompressor (`expand`) over in-memory byte buffers, sharing one packet
//! format and a trailing additive checksum.

pub mod collapse;
pub mod expand;
pub mod roundtrip;
pub mod tamper;
pub mod wire;
