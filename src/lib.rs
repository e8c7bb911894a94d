//! Newline-separated values: a table format whose only structural bytes are
//! LF and backslash.
//!
//! A document is a sequence of rows, a row a sequence of cells, a cell any
//! byte string. Each cell is written escaped and followed by LF; each row
//! ends with one more LF. Decoding is total: malformed escapes are kept
//! as they stand, and the validator reports them separately.
//!
//! The byte functions are the reference; the text functions convert once
//! on either side of them.
pub mod escape;
pub mod decode;
pub mod encode;
pub mod parallel;
pub mod project;
pub mod index;
pub mod check;
pub mod text;
pub mod util;

pub use check::{check, Warning, WarningKind};
pub use encode::encode_bytes;
pub use escape::{escape_bytes, unescape_bytes};
pub use index::{CellSpan, LazyIndex, ProjectedIndex};
pub use parallel::{decode_bytes, decode_parallel};
pub use project::decode_projected;
pub use text::{dumps, escape, loads, unescape};
