//! Decoding of backslash escapes (as in C and in bash's `$'...'`) in byte strings.
pub mod digits;
pub mod text;
pub mod error;
pub mod escape;
pub mod scan;
pub mod theorems;

pub use error::{InvalidBackslashKind, UnescapeError};
pub use scan::{unescape_bytes, unescape_iter};
pub use text::{pretty_bytes, pretty_string, show_controls};
