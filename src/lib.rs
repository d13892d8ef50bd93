//! Bit-granular reading on top of a byte source, most or least significant
//! bit first.
pub mod bits;
pub mod endian;
pub mod read;
pub mod source;

pub use endian::{BitEndianness, BE, LE};
pub use read::{BEBitReader, BitReader, LEBitReader, ReadError};
pub use source::ByteSource;
