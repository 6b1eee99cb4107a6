//! Unicode-aware line wrapping.
//!
//! Candidate breaks come from generators (the Unicode line breaking
//! algorithm, dictionary hyphenation), filters may veto them, and a ruler
//! measures display width. The wrapper maps byte offsets to columns, sorts
//! the candidates, chooses one break per line greedily and emits the text
//! with each break's glue.

pub mod chars;
pub mod coordinates;
pub mod emit;
pub mod filter;
pub mod generator;
pub mod offset;
pub mod ruler;
pub mod selection;
pub mod split_point;
pub mod text;
pub mod util;
pub mod wrapper;

pub use offset::{ByteOffset, WidthOffset};
pub use split_point::SplitPoint;
pub use util::char_is_whitespace;
pub use wrapper::{ConfigError, WrapError, Wrapper};
