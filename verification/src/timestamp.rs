//! Millisecond timestamps: their textual forms, parsing and formatting.

use vstd::prelude::*;
use crate::error::{ParseError, ParseErrorModel, ParseFailure, FailureModel};
use crate::numeral::{
    all_digits_of, digits_to_i64, digits_value, lemma_digits_bound, lemma_zeros_suffix, push_padded,
    ten_pow, zero_pad, zeros,
};
use crate::text::{
    all_digits, chars_of, first_index, lemma_first_index, split_chars, split_on, copy_range, trim,
    trim_bounds, views,
};

verus! {

/// A millisecond-precision timestamp.
///
/// Stored as a single `i64` count of milliseconds so that arithmetic (shift)
/// is exact and a shift that would move a cue before zero can be represented
/// transiently before being clamped.
#[derive(Debug, Clone, Copy, PartialEq, Eq, Structural, PartialOrd, Ord)]
pub struct Timestamp {
    pub ms: i64,
}

// ---------------------------------------------------------------------------
// The textual model
// ---------------------------------------------------------------------------

pub open spec fn is_ms_sep(c: char) -> bool {
    c == ',' || c == '.'
}

pub open spec fn ms_sep() -> spec_fn(char) -> bool {
    |c: char| is_ms_sep(c)
}

/// The value of one clock field: its trimmed form must be a non-empty run of
/// digits whose value an `i64` can hold.
pub open spec fn field_value(f: Seq<char>) -> Option<int> {
    let t = trim(f);
    if t.len() > 0 && all_digits(t) && digits_value(t) <= i64::MAX {
        Some(digits_value(t))
    } else {
        None
    }
}

/// The milliseconds that an optional 1-3 digit fraction denotes, right-padded
/// with zeros to three digits (`5` is 500 ms, `05` is 50 ms).
pub open spec fn millis_value(m: Seq<char>) -> Option<int> {
    if m.len() == 0 {
        Some(0)
    } else if m.len() <= 3 && all_digits(m) {
        Some(digits_value(m + zeros((3 - m.len()) as nat)))
    } else {
        None
    }
}

/// The clock part of a trimmed timestamp: everything before the first `,` or `.`.
pub open spec fn clock_part(s: Seq<char>) -> Seq<char> {
    s.take(first_index(s, ms_sep()) as int)
}

/// The fraction part: everything after the first `,` or `.` (empty without one).
pub open spec fn fraction_part(s: Seq<char>) -> Seq<char> {
    let k = first_index(s, ms_sep());
    if k < s.len() {
        s.skip(k as int + 1)
    } else {
        Seq::empty()
    }
}

/// The milliseconds a timestamp text denotes, or `None` when the text is not
/// `[H+:]MM:SS[(,|.)m{1,3}]` (surrounding whitespace allowed, minutes and
/// seconds below 60). The value is exact, so it may exceed `i64::MAX`.
#[verifier::opaque]
pub open spec fn timestamp_value(raw: Seq<char>) -> Option<int> {
    let s = trim(raw);
    let parts = split_on(clock_part(s), ':');
    match millis_value(fraction_part(s)) {
        None => None,
        Some(ms) => {
            if parts.len() == 3 || parts.len() == 2 {
                let h = if parts.len() == 3 {
                    field_value(parts[0])
                } else {
                    Some(0)
                };
                let m = field_value(parts[parts.len() - 2]);
                let sec = field_value(parts[parts.len() - 1]);
                if h is Some && m is Some && sec is Some && m->0 < 60 && sec->0 < 60 {
                    Some(((h->0 * 60 + m->0) * 60 + sec->0) * 1000 + ms)
                } else {
                    None
                }
            } else {
                None
            }
        },
    }
}

/// Whether `raw` is a timestamp whose value an `i64` cannot hold.
pub open spec fn timestamp_too_large(raw: Seq<char>) -> bool {
    timestamp_value(raw) matches Some(v) && v > i64::MAX
}

/// Hours, minutes, seconds and milliseconds of a time (negative times read as 0).
#[verifier::opaque]
pub open spec fn clock_fields(ms: int) -> (nat, nat, nat, nat) {
    let t = if ms < 0 {
        0
    } else {
        ms
    };
    ((t / 3_600_000) as nat, ((t % 3_600_000) / 60_000) as nat, ((t % 60_000) / 1000) as nat, (t
        % 1000) as nat)
}

/// `HH:MM:SS<sep>mmm`, hours padded to at least two digits.
pub open spec fn clock_text(ms: int, sep: char) -> Seq<char> {
    let (h, m, s, x) = clock_fields(ms);
    zero_pad(h, 2) + seq![':'] + zero_pad(m, 2) + seq![':'] + zero_pad(s, 2) + seq![sep]
        + zero_pad(x, 3)
}

pub open spec fn srt_time(ms: int) -> Seq<char> {
    clock_text(ms, ',')
}

pub open spec fn vtt_time(ms: int) -> Seq<char> {
    clock_text(ms, '.')
}

// ---------------------------------------------------------------------------
// Reading timestamps
// ---------------------------------------------------------------------------

/// What reading a timestamp text gives.
pub enum Reading {
    Value(i64),
    Malformed,
    TooLarge,
}

/// Whether `reading` is what `timestamp_value(s)` says.
pub open spec fn reading_of(s: Seq<char>, reading: Reading) -> bool {
    match reading {
        Reading::Value(x) => timestamp_value(s) == Some(x as int),
        Reading::Malformed => timestamp_value(s) is None,
        Reading::TooLarge => timestamp_too_large(s),
    }
}

fn is_ms_sep_char(c: char) -> (b: bool)
    ensures
        b == is_ms_sep(c),
{
    c == ',' || c == '.'
}

/// The value of a clock field held in `f`.
fn parse_field(f: &Vec<char>) -> (r: Option<i64>)
    ensures
        match r {
            Some(x) => field_value(f@) == Some(x as int) && x >= 0,
            None => field_value(f@) is None,
        },
{
    let (a, b) = trim_bounds(f, 0, f.len());
    assert(f@.subrange(0, f.len() as int) =~= f@);
    if a == b {
        return None;
    }
    if !all_digits_of(f, a, b) {
        return None;
    }
    proof {
        lemma_digits_bound(f@.subrange(a as int, b as int));
    }
    digits_to_i64(f, a, b)
}

/// The milliseconds of the fraction `v[lo..hi]`, `None` when malformed.
fn read_fraction(v: &Vec<char>, lo: usize, hi: usize) -> (r: Option<i64>)
    requires
        lo <= hi <= v.len(),
    ensures
        match r {
            Some(x) => millis_value(v@.subrange(lo as int, hi as int)) == Some(x as int) && 0
                <= x < 1000,
            None => millis_value(v@.subrange(lo as int, hi as int)) is None,
        },
{
    let ghost m = v@.subrange(lo as int, hi as int);
    if lo == hi {
        return Some(0);
    }
    if hi - lo > 3 || !all_digits_of(v, lo, hi) {
        return None;
    }
    proof {
        lemma_digits_bound(m);
        lemma_zeros_suffix(m, (3 - m.len()) as nat);
        assert(ten_pow(0) == 1);
        assert(ten_pow(1) == 10);
        assert(ten_pow(2) == 100);
        assert(ten_pow(3) == 1000);
    }
    let x = match digits_to_i64(v, lo, hi) {
        Some(x) => x,
        None => {
            return None;
        },
    };
    let k = hi - lo;
    if k == 1 {
        Some(x * 100)
    } else if k == 2 {
        Some(x * 10)
    } else {
        Some(x)
    }
}

/// Reads the timestamp text `v[lo..hi]`.
pub fn read_timestamp(v: &Vec<char>, lo: usize, hi: usize) -> (r: Reading)
    requires
        lo <= hi <= v.len(),
    ensures
        reading_of(v@.subrange(lo as int, hi as int), r),
{
    reveal(timestamp_value);
    let ghost raw = v@.subrange(lo as int, hi as int);
    let (a, b) = trim_bounds(v, lo, hi);
    let ghost s = v@.subrange(a as int, b as int);
    assert(s == trim(raw));
    // The first `,` or `.` splits the clock from the fraction.
    let mut k = a;
    while k < b && !is_ms_sep_char(v[k])
        invariant
            a <= k <= b <= v.len(),
            forall|j: int| a <= j < k ==> !is_ms_sep(#[trigger] v@[j]),
        decreases b - k,
    {
        k += 1;
    }
    proof {
        assert forall|j: int| 0 <= j < k - a implies !(#[trigger] ms_sep()(s[j])) by {
            assert(s[j] == v@[a + j]);
        }
        if k < b {
            assert(s[k - a] == v@[k as int]);
        }
        lemma_first_index(s, ms_sep(), (k - a) as nat);
        assert(s.take(k - a) =~= v@.subrange(a as int, k as int));
        if k < b {
            assert(s.skip(k - a + 1) =~= v@.subrange(k + 1, b as int));
        } else {
            assert(v@.subrange(b as int, b as int) =~= Seq::<char>::empty());
        }
    }
    let m_lo = if k < b {
        k + 1
    } else {
        b
    };
    assert(fraction_part(s) == v@.subrange(m_lo as int, b as int));
    let ms = match read_fraction(v, m_lo, b) {
        Some(x) => x,
        None => {
            return Reading::Malformed;
        },
    };
    // The clock, split on `:`.
    let clock = copy_range(v, a, k);
    assert(clock@ == clock_part(s));
    let parts = split_chars(&clock, ':');
    let np = parts.len();
    assert(views(parts@).len() == np);
    if np != 2 && np != 3 {
        return Reading::Malformed;
    }
    assert(views(parts@)[np - 2] == parts@[np - 2]@);
    assert(views(parts@)[np - 1] == parts@[np - 1]@);
    assert(views(parts@)[0] == parts@[0]@);
    let h: i64 = if np == 3 {
        match parse_field(&parts[0]) {
            Some(x) => x,
            None => {
                return Reading::Malformed;
            },
        }
    } else {
        0
    };
    let m = match parse_field(&parts[np - 2]) {
        Some(x) => x,
        None => {
            return Reading::Malformed;
        },
    };
    let sec = match parse_field(&parts[np - 1]) {
        Some(x) => x,
        None => {
            return Reading::Malformed;
        },
    };
    if m >= 60 || sec >= 60 {
        return Reading::Malformed;
    }
    assert(0 <= (h as int) * 3_600_000 <= (i64::MAX as int) * 3_600_000) by (nonlinear_arith)
        requires
            0 <= h <= i64::MAX,
    ;
    let total: i128 = ((h as i128 * 60 + m as i128) * 60 + sec as i128) * 1000 + ms as i128;
    if total > i64::MAX as i128 {
        Reading::TooLarge
    } else {
        Reading::Value(total as i64)
    }
}


/// Appends `clock_text(t.ms, sep)` to a string.
pub fn push_clock(out: &mut String, t: Timestamp, sep: char)
    ensures
        final(out)@ == old(out)@ + clock_text(t.ms as int, sep),
{
    let (h, m, s, x) = t.components();
    push_padded(out, h, 2);
    crate::text::push_char(out, ':');
    push_padded(out, m, 2);
    crate::text::push_char(out, ':');
    push_padded(out, s, 2);
    crate::text::push_char(out, sep);
    push_padded(out, x, 3);
    assert(out@ =~= old(out)@ + clock_text(t.ms as int, sep));
}

impl Timestamp {
    /// Hours, minutes, seconds and milliseconds (negative times read as 0).
    fn components(self) -> (r: (u64, u64, u64, u64))
        ensures
            (r.0 as nat, r.1 as nat, r.2 as nat, r.3 as nat) == clock_fields(self.ms as int),
    {
        reveal(clock_fields);
        let t: u64 = if self.ms < 0 {
            0
        } else {
            self.ms as u64
        };
        (t / 3_600_000, (t % 3_600_000) / 60_000, (t % 60_000) / 1000, t % 1000)
    }

    pub fn from_ms(ms: i64) -> (t: Timestamp)
        ensures
            t.ms == ms,
    {
        Timestamp { ms }
    }

    /// `((h * 60 + m) * 60 + s) * 1000 + ms` milliseconds.
    pub fn from_hmsm(h: i64, m: i64, s: i64, ms: i64) -> (t: Timestamp)
        requires
            i64::MIN <= h * 60 <= i64::MAX,
            i64::MIN <= h * 60 + m <= i64::MAX,
            i64::MIN <= (h * 60 + m) * 60 <= i64::MAX,
            i64::MIN <= (h * 60 + m) * 60 + s <= i64::MAX,
            i64::MIN <= ((h * 60 + m) * 60 + s) * 1000 <= i64::MAX,
            i64::MIN <= ((h * 60 + m) * 60 + s) * 1000 + ms <= i64::MAX,
        ensures
            t.ms == ((h * 60 + m) * 60 + s) * 1000 + ms,
    {
        Timestamp { ms: ((h * 60 + m) * 60 + s) * 1000 + ms }
    }

    /// Saturating shift: never goes below zero (a subtitle cannot start before
    /// the start of the media).
    pub fn shifted(self, delta_ms: i64) -> (t: Timestamp)
        requires
            i64::MIN <= self.ms + delta_ms <= i64::MAX,
        ensures
            t.ms == shifted_ms(self.ms as int, delta_ms as int),
    {
        let v = self.ms + delta_ms;
        Timestamp { ms: if v < 0 {
            0
        } else {
            v
        } }
    }

    /// Parse `HH:MM:SS,mmm` or `HH:MM:SS.mmm`. Hours may be 1+ digits; a
    /// `MM:SS.mmm` form (no hours, as VTT permits) is also accepted. The
    /// millisecond field is optional and may be 1-3 digits.
    pub fn parse(raw: &str) -> (r: Result<Timestamp, ParseError>)
        requires
            !timestamp_too_large(raw@),
        ensures
            match timestamp_value(raw@) {
                Some(v) => r matches Ok(t) && t.ms == v,
                None => r matches Err(e) && e@ == ParseErrorModel::BadTimestamp(raw@),
            },
    {
        match Self::try_parse(raw) {
            Ok(t) => Ok(t),
            Err(ParseFailure::Rejected(e)) => Err(e),
            Err(ParseFailure::TooLarge) => {
                assert(false);
                Err(ParseError::Empty)
            },
        }
    }

    /// [`Timestamp::parse`] for every input: a well-formed timestamp past
    /// `i64::MAX` milliseconds is reported as `TooLarge`.
    pub fn try_parse(raw: &str) -> (r: Result<Timestamp, ParseFailure>)
        ensures
            match timestamp_value(raw@) {
                Some(v) => if v <= i64::MAX {
                    r matches Ok(t) && t.ms == v
                } else {
                    r matches Err(f) && f@ == FailureModel::TooLarge
                },
                None => r matches Err(f) && f@ == FailureModel::Rejected(
                    ParseErrorModel::BadTimestamp(raw@),
                ),
            },
    {
        let v = chars_of(raw);
        assert(v@.subrange(0, v.len() as int) =~= v@);
        match read_timestamp(&v, 0, v.len()) {
            Reading::Value(ms) => Ok(Timestamp { ms }),
            Reading::TooLarge => Err(ParseFailure::TooLarge),
            Reading::Malformed => Err(ParseFailure::Rejected(ParseError::BadTimestamp(raw.to_owned()))),
        }
    }

    /// Format as SRT (`HH:MM:SS,mmm`).
    pub fn to_srt(self) -> (s: String)
        ensures
            s@ == srt_time(self.ms as int),
    {
        let mut out = String::new();
        push_clock(&mut out, self, ',');
        assert(out@ =~= srt_time(self.ms as int));
        out
    }

    /// Format as VTT (`HH:MM:SS.mmm`).
    pub fn to_vtt(self) -> (s: String)
        ensures
            s@ == vtt_time(self.ms as int),
    {
        let mut out = String::new();
        push_clock(&mut out, self, '.');
        assert(out@ =~= vtt_time(self.ms as int));
        out
    }
}

/// A time moved by `delta`, saturating at zero.
pub open spec fn shifted_ms(ms: int, delta: int) -> int {
    if ms + delta < 0 {
        0
    } else {
        ms + delta
    }
}

} // verus!
