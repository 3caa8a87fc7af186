//! Flattens a JSON value tree into TOON text: one `key=value` line per leaf,
//! with dot-joined key paths for object members and array elements.

pub mod cli;
pub mod converter;
pub mod toon;
pub mod value;

pub use cli::Args;
pub use converter::{ConversionError, Converter};
pub use toon::{escape_string, ToonWriter};
pub use value::{JsonNumber, JsonValue};
