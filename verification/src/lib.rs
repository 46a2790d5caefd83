//! srt_tools: parsing and manipulating SubRip (`.srt`) and WebVTT (`.vtt`)
//! subtitle files, with every operation stated over a mathematical model of
//! the text and proved by Verus.
//!
//! The library is built around two types:
//!   * [`Timestamp`]: a millisecond-precision point in time with exact SRT
//!     (`HH:MM:SS,mmm`) and VTT (`HH:MM:SS.mmm`) formatting.
//!   * [`Cue`]: a single subtitle entry (index, start, end, text).
//!
//! Parsing tolerates CRLF or LF line endings, a byte-order mark, blank lines
//! between cues, VTT headers / `NOTE` blocks / cue identifiers, and `.`-vs-`,`
//! millisecond separators.

pub mod text;
pub mod numeral;
pub mod error;
pub mod timestamp;
pub mod cue;
pub mod format;
pub mod parse;
pub mod write;
pub mod edit;
pub mod fix;
pub mod stats;
pub mod options;
pub mod duration;
pub mod laws_text;
pub mod laws_time;
pub mod laws_roundtrip;
pub mod laws_fix;
pub mod laws_edit;
pub mod laws_input;
pub mod laws_write;

pub use crate::cue::Cue;
pub use crate::duration::{duration_form, DurationError, DurationForm};
pub use crate::edit::{merge, renumber, shift};
pub use crate::error::{ParseError, ParseFailure};
pub use crate::fix::fix;
pub use crate::format::{output_format, Format};
pub use crate::options::{resolve_format, split_sign, FormatChoiceError};
pub use crate::parse::{parse, try_parse};
pub use crate::stats::{stats, stats_text, Stats};
pub use crate::timestamp::Timestamp;
pub use crate::write::{to_format, to_srt, to_vtt};
