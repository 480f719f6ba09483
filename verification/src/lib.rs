//! PPMd compression: the range coders of the PPMd7 (PPMdH) and PPMd7a (carryless)
//! variants with their round trips, the PPMd7 model with its PPMd7a decoder and
//! encoder, and the PPMd8
//! (PPMdI) model with its allocator, its growth and its adaptation to coded symbols.

use vstd::prelude::*;

pub mod byte_io;
pub mod decoder_7a;
pub mod encoder_7a;
pub mod error;
pub mod ppmd8;
pub mod ppmd7;
pub mod range_coding;
pub mod round_trip;
pub mod classic_round_trip;

pub use byte_io::{ByteReader, ByteWriter};
pub use decoder_7a::Ppmd7aDecoder;
pub use encoder_7a::Ppmd7aEncoder;
pub use ppmd7::coder::{SYM_END, SYM_ERROR};
pub use ppmd7::model::Ppmd7;
pub use error::{Error, IoError};
pub use ppmd8::model::Ppmd8;
pub use ppmd8::RestoreMethod;

verus! {

/// The smallest model order of PPMd7.
pub const PPMD7_MIN_ORDER: u32 = 2;

/// The largest model order of PPMd7.
pub const PPMD7_MAX_ORDER: u32 = 64;

/// The smallest model memory of PPMd7, in bytes.
pub const PPMD7_MIN_MEM_SIZE: u32 = 0x800;

/// The largest model memory of PPMd7, in bytes.
pub const PPMD7_MAX_MEM_SIZE: u32 = 0xFFFF_FFDB;

/// The smallest model order of PPMd8.
pub const PPMD8_MIN_ORDER: u32 = 2;

/// The largest model order of PPMd8.
pub const PPMD8_MAX_ORDER: u32 = 16;

/// The smallest model memory of PPMd8, in bytes.
pub const PPMD8_MIN_MEM_SIZE: u32 = 0x800;

/// The largest model memory of PPMd8, in bytes.
pub const PPMD8_MAX_MEM_SIZE: u32 = 0xFFFF_FFDB;

} // verus!
