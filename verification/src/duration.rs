//! Reading the signed durations given to `shift --by` and `merge --offset`.
//!
//! A duration is either a signed clock time (`-00:00:02,500`), read here in
//! full, or a signed number with an optional unit (`+2.5s`, `1200ms`, `1m`,
//! `3`). For the latter this module picks the sign, the number text and the
//! unit; the number itself may be fractional and is read by the caller.

use vstd::prelude::*;
use crate::error::{ParseError, ParseErrorModel, ParseFailure};
use crate::laws_roundtrip::lemma_timestamp_nonneg;
use crate::options::{sign_split, split_sign};
use crate::text::{chars_of, trim, trim_bounds};
use crate::timestamp::{Timestamp, timestamp_value};

verus! {

/// How a duration is written.
#[derive(Debug, PartialEq, Eq)]
pub enum DurationForm {
    /// A signed clock time, in milliseconds.
    Clock(i64),
    /// A signed number still to be read; one unit of it is `unit_ms`
    /// milliseconds.
    Number { sign: i64, number: String, unit_ms: i64 },
}

/// Why a duration could not be read.
#[derive(Debug, PartialEq, Eq)]
pub enum DurationError {
    /// Nothing but whitespace.
    Empty,
    /// A clock form whose time is malformed.
    BadTimestamp(ParseError),
    /// A clock form whose time is past `i64::MAX` milliseconds.
    TooLarge,
}

/// The number text of a signed duration's body and the milliseconds of its
/// unit: the suffixes `ms`, `s` and `m` are tested in this order, and a bare
/// number counts seconds.
pub open spec fn number_unit(body: Seq<char>) -> (Seq<char>, int) {
    let n = body.len() as int;
    if n >= 2 && body[n - 2] == 'm' && body[n - 1] == 's' {
        (body.take(n - 2), 1)
    } else if n >= 1 && body[n - 1] == 's' {
        (body.take(n - 1), 1000)
    } else if n >= 1 && body[n - 1] == 'm' {
        (body.take(n - 1), 60_000)
    } else {
        (body, 1000)
    }
}

/// What `duration_form` gives for `raw`: after trimming, an empty value is an
/// error; a value holding `:` is a signed clock time; anything else a signed
/// number with its unit.
pub open spec fn duration_form_ok(raw: Seq<char>, r: Result<DurationForm, DurationError>) -> bool {
    let s = trim(raw);
    let sg = sign_split(s).0;
    let body = sign_split(s).1;
    if s.len() == 0 {
        r matches Err(DurationError::Empty)
    } else if s.contains(':') {
        match timestamp_value(body) {
            Some(v) => if v <= i64::MAX {
                r matches Ok(DurationForm::Clock(ms)) && ms == sg * v
            } else {
                r matches Err(DurationError::TooLarge)
            },
            None => r matches Err(DurationError::BadTimestamp(e)) && e@
                == ParseErrorModel::BadTimestamp(body),
        }
    } else {
        r matches Ok(DurationForm::Number { sign, number, unit_ms }) && sign == sg && number@
            == number_unit(body).0 && unit_ms == number_unit(body).1
    }
}

fn contains_char(v: &Vec<char>, c: char) -> (b: bool)
    ensures
        b == v@.contains(c),
{
    let mut i: usize = 0;
    while i < v.len()
        invariant
            i <= v.len(),
            forall|k: int| 0 <= k < i ==> v@[k] != c,
        decreases v.len() - i,
    {
        if v[i] == c {
            assert(v@[i as int] == c);
            return true;
        }
        i += 1;
    }
    false
}

/// Read the form of a signed duration (`+2.5s`, `-1.2s`, `3s`, `1200ms`,
/// `1m`, `2.5`, or a signed `HH:MM:SS,mmm` / `MM:SS.mmm`).
pub fn duration_form(raw: &str) -> (r: Result<DurationForm, DurationError>)
    ensures
        duration_form_ok(raw@, r),
{
    let v = chars_of(raw);
    let n = v.len();
    let (lo, hi) = trim_bounds(&v, 0, n);
    assert(v@.subrange(0, n as int) =~= v@);
    let s = raw.substring_char(lo, hi);
    assert(s@ == trim(raw@));
    if lo == hi {
        return Err(DurationError::Empty);
    }
    let sv = chars_of(s);
    let colon = contains_char(&sv, ':');
    let (sign, body) = split_sign(s);
    if colon {
        match Timestamp::try_parse(body) {
            Ok(t) => {
                proof {
                    lemma_timestamp_nonneg(body@);
                }
                let ms = if sign < 0 {
                    -t.ms
                } else {
                    t.ms
                };
                assert(ms == sign_split(s@).0 * timestamp_value(body@)->0) by (nonlinear_arith)
                    requires
                        sign == sign_split(s@).0,
                        sign == -1 || sign == 1,
                        t.ms == timestamp_value(body@)->0,
                        sign < 0 ==> ms == -t.ms,
                        sign >= 0 ==> ms == t.ms,
                ;
                Ok(DurationForm::Clock(ms))
            },
            Err(ParseFailure::TooLarge) => Err(DurationError::TooLarge),
            Err(ParseFailure::Rejected(e)) => Err(DurationError::BadTimestamp(e)),
        }
    } else {
        let w = chars_of(body);
        let m = w.len();
        let (end, unit_ms): (usize, i64) = if m >= 2 && w[m - 2] == 'm' && w[m - 1] == 's' {
            (m - 2, 1)
        } else if m >= 1 && w[m - 1] == 's' {
            (m - 1, 1000)
        } else if m >= 1 && w[m - 1] == 'm' {
            (m - 1, 60_000)
        } else {
            (m, 1000)
        };
        let number = body.substring_char(0, end).to_owned();
        assert(body@.take(m as int) =~= body@);
        Ok(DurationForm::Number { sign, number, unit_ms })
    }
}

} // verus!
