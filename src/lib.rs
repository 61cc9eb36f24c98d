//! Parser for a stream notation of lexical units: words carrying ambiguous
//! morphological analyses, multiword units, labelled chunks, opaque format
//! markup and verbatim whitespace.
//!
//! - `grammar` states the notation as a reader over sequences of characters.
//! - The entry points (`parse_stream` and the readers of each shape) are
//!   proved to return exactly what `grammar` reads, with character offsets.
//! - `render` gives the canonical text of parsed values; `laws` and
//!   `produced` prove that this text reads back as the same values, and that
//!   a unit opened with `^` and never closed is an error.
mod types;
pub mod grammar;
mod parser;
mod parse;
pub mod render;
pub mod laws;
pub mod produced;

pub use types::{ErrorKind, Flag, ParseError, StreamUnit, SubLU, SubLUModel, UnitModel};
pub use parse::{
    make_flag, parse_basic_lu, parse_chunk, parse_format, parse_joined_lu,
    parse_lu_or_space_or_format, parse_space, parse_stream, parse_stream_unit, parse_sub_lu,
    parse_sub_lu_basic, parse_sub_lu_without_ling_form, parse_tag,
};
