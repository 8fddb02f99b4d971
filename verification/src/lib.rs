//! Reading and writing PNG `tEXt` metadata chunks, and the search
//! strategies built on them, without decoding any image data.
//!
//! Everything here works on the bytes of a PNG file; reading and writing
//! files is left to the caller.

pub mod chunk;
pub mod find;
pub mod json;
pub mod meta;
pub mod png;
pub mod read;
pub mod test_util;
pub mod text_map;
pub mod write;

pub use find::{BytesRegex, FindError, FindOptions, Matcher, StrRegex};
pub use json::JsonValue;
pub use meta::{extract, PngMeta};
pub use png::PngError;
pub use read::{contains_in_text_chunks, read_text_chunks, scan_text_chunks};
pub use text_map::TextChunks;
pub use write::{crc32, write_text_chunk};
