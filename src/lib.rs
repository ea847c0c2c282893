//! Fixed-size byte values and their lossless encodings: lowercase hex,
//! standard base64, and a minimal-width packing of unsigned integer lists.
pub mod base64;
pub mod bytes;
pub mod digest;
pub mod error;
pub mod hex;
pub mod list;
pub mod numbers;
pub mod packed;
pub mod repr_bytes;
pub mod text;

pub use base64::{dec_byte, dec_reshuffle, dec_translate, enc_reshuffle, enc_translate, ReprBase64};
pub use bytes::Bytes;
pub use error::Error;
pub use hex::{from_hex_digit, ReprHex};
pub use list::{Element, ListU16, ListU32, ListU64, PackedList};
pub use packed::ReprPacked;
pub use repr_bytes::ReprBytes;
