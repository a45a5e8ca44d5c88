//! Low-level bit packing primitives: bounded bit writers and a bounded
//! bit reader, with a bit-sequence model of what they write and read.
pub mod bits;
mod error;
mod reader;
mod writer;

pub use error::{BitError, BitResult};
pub use reader::{unzigzag_exec, BitReader};
pub use writer::{varu32_len, zigzag_exec, BitVecWriter, BitWriter};
