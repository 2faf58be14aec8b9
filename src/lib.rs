//! A binary codec for the pickle wire format: fixed layouts, big-endian
//! integers, length-prefixed bounded sequences, and records and tagged unions
//! built from the codecs of their parts.
use vstd::prelude::*;

pub mod buffer;
pub mod compose;
pub mod decode;
pub mod encode;
pub mod error;
pub mod laws;

pub use buffer::{sink_bytes, source_bytes};
pub use compose::{decode_variant_index, encode_variant};
pub use decode::Decode;
pub use encode::Encode;
pub use error::{DecodeError, EncodeError};
pub use laws::RoundTrip;

verus! {

/// The largest number of elements a sequence may hold on the wire.
pub const MAX_ARRAY_LENGTH: usize = 65535;

} // verus!
