//! Subtitle container formats.

use vstd::prelude::*;
use crate::text::chars_of;

verus! {

/// Subtitle container format.
#[derive(Debug, Clone, Copy, PartialEq, Eq, Structural)]
pub enum Format {
    Srt,
    Vtt,
}

/// ASCII upper-case letters made lower-case (`char::to_ascii_lowercase`).
pub open spec fn ascii_lower(c: char) -> char {
    if 'A' <= c && c <= 'Z' {
        ((c as int) + 32) as char
    } else {
        c
    }
}

/// Whether a path, ASCII-lower-cased, ends with `.vtt`.
pub open spec fn has_vtt_extension(path: Seq<char>) -> bool {
    let n = path.len() as int;
    &&& n >= 4
    &&& ascii_lower(path[n - 4]) == '.'
    &&& ascii_lower(path[n - 3]) == 'v'
    &&& ascii_lower(path[n - 2]) == 't'
    &&& ascii_lower(path[n - 1]) == 't'
}

fn lower(c: char) -> (r: char)
    ensures
        r == ascii_lower(c),
{
    if 'A' <= c && c <= 'Z' {
        let b = (c as u32 + 32) as u8;
        b as char
    } else {
        c
    }
}

impl Format {
    /// Infer a format from a file path's extension (case-insensitive).
    /// Anything that is not `.vtt` is treated as SRT.
    pub fn from_path(path: &str) -> (f: Format)
        ensures
            f == (if has_vtt_extension(path@) {
                Format::Vtt
            } else {
                Format::Srt
            }),
    {
        let v = chars_of(path);
        let n = v.len();
        if n >= 4 && lower(v[n - 4]) == '.' && lower(v[n - 3]) == 'v' && lower(v[n - 2]) == 't'
            && lower(v[n - 1]) == 't' {
            Format::Vtt
        } else {
            Format::Srt
        }
    }
}

/// The format output is written in: the one asked for, else the one the
/// output path's extension names, else SRT (as on standard output).
pub fn output_format(forced: Option<Format>, output: Option<&str>) -> (f: Format)
    ensures
        f == (match forced {
            Some(g) => g,
            None => match output {
                Some(p) => if has_vtt_extension(p@) {
                    Format::Vtt
                } else {
                    Format::Srt
                },
                None => Format::Srt,
            },
        }),
{
    match forced {
        Some(g) => g,
        None => match output {
            Some(p) => Format::from_path(p),
            None => Format::Srt,
        },
    }
}

} // verus!
