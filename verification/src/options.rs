//! Reading command-line values that select formats and signs.

use vstd::prelude::*;
use crate::format::{Format, ascii_lower, has_vtt_extension};
use crate::text::{chars_of, push_char, trim_start, trim_start_bound};

verus! {

/// A leading `-` or `+` split from a value: the sign and the rest, with
/// whitespace after the sign removed.
pub open spec fn sign_split(s: Seq<char>) -> (int, Seq<char>) {
    if s.len() > 0 && s[0] == '-' {
        (-1, trim_start(s.drop_first()))
    } else if s.len() > 0 && s[0] == '+' {
        (1, trim_start(s.drop_first()))
    } else {
        (1, s)
    }
}

/// Split a leading '+' / '-' from a value, returning (+1|-1, rest).
pub fn split_sign(s: &str) -> (r: (i64, &str))
    ensures
        (r.0 as int, r.1@) == sign_split(s@),
{
    let v = chars_of(s);
    let n = v.len();
    if n > 0 && (v[0] == '-' || v[0] == '+') {
        let (h, _) = trim_start_bound(&v, 1, n);
        assert(v@.subrange(1, n as int) =~= v@.drop_first());
        let rest = s.substring_char(h, n);
        let sign: i64 = if v[0] == '-' {
            -1
        } else {
            1
        };
        (sign, rest)
    } else {
        (1, s)
    }
}

/// The text ASCII-lower-cased (`str::to_ascii_lowercase`).
pub open spec fn lower_ascii(s: Seq<char>) -> Seq<char> {
    s.map_values(|c: char| ascii_lower(c))
}

/// Why no output format could be chosen.
#[derive(Debug, PartialEq, Eq)]
pub enum FormatChoiceError {
    /// `--to` named neither `srt` nor `vtt` (the value, lower-cased).
    Unknown(String),
    /// Neither `--to` nor an output path was given.
    Missing,
}

/// What `resolve_format` decides, with the unknown name as characters.
pub enum FormatChoice {
    Chosen(Format),
    Unknown(Seq<char>),
    Missing,
}

pub open spec fn format_choice(to: Option<Seq<char>>, output: Option<Seq<char>>) -> FormatChoice {
    match to {
        Some(t) => {
            let l = lower_ascii(t);
            if l == seq!['s', 'r', 't'] {
                FormatChoice::Chosen(Format::Srt)
            } else if l == seq!['v', 't', 't'] {
                FormatChoice::Chosen(Format::Vtt)
            } else {
                FormatChoice::Unknown(l)
            }
        },
        None => match output {
            Some(p) => FormatChoice::Chosen(
                if has_vtt_extension(p) {
                    Format::Vtt
                } else {
                    Format::Srt
                },
            ),
            None => FormatChoice::Missing,
        },
    }
}

pub open spec fn opt_view(o: Option<&str>) -> Option<Seq<char>> {
    match o {
        Some(s) => Some(s@),
        None => None,
    }
}

fn lower_string(s: &str) -> (r: String)
    ensures
        r@ == lower_ascii(s@),
{
    let v = chars_of(s);
    let mut out = String::new();
    let mut i: usize = 0;
    while i < v.len()
        invariant
            i <= v.len(),
            v@ == s@,
            out@ == lower_ascii(v@.take(i as int)),
        decreases v.len() - i,
    {
        let c = v[i];
        let l = if 'A' <= c && c <= 'Z' {
            ((c as u32 + 32) as u8) as char
        } else {
            c
        };
        push_char(&mut out, l);
        assert(lower_ascii(v@.take(i + 1)) =~= lower_ascii(v@.take(i as int)).push(l));
        i += 1;
    }
    assert(v@.take(v.len() as int) =~= v@);
    out
}

/// Decide the output format from an explicit `--to`, else the output path's
/// extension; with neither there is nothing to decide from.
pub fn resolve_format(to: Option<&str>, output: Option<&str>) -> (r: Result<
    Format,
    FormatChoiceError,
>)
    ensures
        match format_choice(opt_view(to), opt_view(output)) {
            FormatChoice::Chosen(f) => r == Ok::<Format, FormatChoiceError>(f),
            FormatChoice::Unknown(l) => r matches Err(FormatChoiceError::Unknown(s)) && s@ == l,
            FormatChoice::Missing => r matches Err(FormatChoiceError::Missing),
        },
{
    match to {
        Some(t) => {
            let l = lower_string(t);
            let v = chars_of(l.as_str());
            if v.len() == 3 && v[0] == 's' && v[1] == 'r' && v[2] == 't' {
                assert(l@ =~= seq!['s', 'r', 't']);
                Ok(Format::Srt)
            } else if v.len() == 3 && v[0] == 'v' && v[1] == 't' && v[2] == 't' {
                assert(l@ =~= seq!['v', 't', 't']);
                Ok(Format::Vtt)
            } else {
                proof {
                    if l@ == seq!['s', 'r', 't'] || l@ == seq!['v', 't', 't'] {
                        assert(v@[0] == l@[0] && v@[1] == l@[1] && v@[2] == l@[2]);
                    }
                }
                Err(FormatChoiceError::Unknown(l))
            }
        },
        None => match output {
            Some(p) => Ok(Format::from_path(p)),
            None => Err(FormatChoiceError::Missing),
        },
    }
}

} // verus!
