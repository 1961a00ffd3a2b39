//! Reading and writing GXT string tables: a key index of eight-byte keys with value
//! offsets, followed by a section of zero-terminated little-endian UTF-16 values, shown to
//! the user as text with reversible escapes.
pub mod cursor;
pub mod error;
pub mod key;
pub mod table;
pub mod text;

pub use error::GxtError;
pub use table::{build_gxt_bytes, parse_gxt_bytes, validate_entries, GxtDocument, GxtEntry, SaveResult};
