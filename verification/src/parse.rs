//! Parsing SRT and WebVTT text into cues.
//!
//! The model works line by line over the normalized text, exactly as the
//! parser reads it: blank lines and the `WEBVTT` header are skipped, `NOTE`,
//! `STYLE` and `REGION` blocks are skipped up to the next blank line, and any
//! other line starts a cue whose timing line is that line or the next one.

use vstd::prelude::*;
use crate::cue::{Cue, CueModel, cue_models};
use crate::error::{FailureModel, ParseError, ParseErrorModel, ParseFailure};
use crate::text::{
    chars_of, first_index, is_blank, is_blank_vec, is_ws, is_ws_char, join_lines,
    lemma_first_index, lines_chars, lines_of, normalize, normalize_chars, push_all, push_char,
    range_equals, range_starts_with, string_of, trim, trim_bounds, trim_start, trim_start_bound,
    views,
};
use crate::timestamp::{Reading, Timestamp, read_timestamp, reading_of, timestamp_value};

verus! {

// ---------------------------------------------------------------------------
// The model
// ---------------------------------------------------------------------------

pub open spec fn is_arrow_at(s: Seq<char>, i: int) -> bool {
    0 <= i && i + 3 <= s.len() && s[i] == '-' && s[i + 1] == '-' && s[i + 2] == '>'
}

/// The position of the first `-->` at or after `i` (`s.len()` when there is none).
pub open spec fn arrow_from(s: Seq<char>, i: nat) -> nat
    decreases s.len() - i,
{
    if i + 3 > s.len() {
        s.len()
    } else if is_arrow_at(s, i as int) {
        i
    } else {
        arrow_from(s, i + 1)
    }
}

pub open spec fn arrow_index(s: Seq<char>) -> nat {
    arrow_from(s, 0)
}

/// Whether a line holds `-->`, which makes it a timing line.
pub open spec fn is_timing_line(s: Seq<char>) -> bool {
    arrow_index(s) < s.len()
}

/// The start timestamp text of a timing line: what precedes `-->`, trimmed.
pub open spec fn timing_start(s: Seq<char>) -> Seq<char> {
    trim(s.take(arrow_index(s) as int))
}

pub open spec fn ws() -> spec_fn(char) -> bool {
    |c: char| is_ws(c)
}

/// The first whitespace-separated token of `s` (empty when there is none).
pub open spec fn first_token(s: Seq<char>) -> Seq<char> {
    let u = trim_start(s);
    u.take(first_index(u, ws()) as int)
}

/// The end timestamp text of a timing line: the first token after `-->`
/// (cue settings that follow it are ignored).
pub open spec fn timing_end(s: Seq<char>) -> Seq<char> {
    first_token(s.skip(arrow_index(s) as int + 3))
}

pub open spec fn webvtt() -> Seq<char> {
    seq!['W', 'E', 'B', 'V', 'T', 'T']
}

pub open spec fn note() -> Seq<char> {
    seq!['N', 'O', 'T', 'E']
}

pub open spec fn note_space() -> Seq<char> {
    seq!['N', 'O', 'T', 'E', ' ']
}

pub open spec fn style() -> Seq<char> {
    seq!['S', 'T', 'Y', 'L', 'E']
}

pub open spec fn region() -> Seq<char> {
    seq!['R', 'E', 'G', 'I', 'O', 'N']
}

pub open spec fn starts_with(s: Seq<char>, p: Seq<char>) -> bool {
    p.len() <= s.len() && s.take(p.len() as int) == p
}

/// The `WEBVTT` signature line (possibly with a trailing description).
pub open spec fn is_header_line(line: Seq<char>) -> bool {
    starts_with(trim_start(line), webvtt())
}

/// The first line of a `NOTE`, `STYLE` or `REGION` block.
pub open spec fn is_block_head(line: Seq<char>) -> bool {
    let h = trim_start(line);
    h == note() || starts_with(h, note_space()) || h == style() || h == region()
}

/// The first blank line at or after `j` (`ls.len()` when there is none).
pub open spec fn block_end(ls: Seq<Seq<char>>, j: nat) -> nat
    decreases ls.len() - j,
{
    if j >= ls.len() || is_blank(ls[j as int]) {
        j
    } else {
        block_end(ls, j + 1)
    }
}

pub proof fn lemma_block_end(ls: Seq<Seq<char>>, j: nat)
    ensures
        j <= block_end(ls, j),
        j <= ls.len() ==> block_end(ls, j) <= ls.len(),
    decreases ls.len() - j,
{
    if !(j >= ls.len() || is_blank(ls[j as int])) {
        lemma_block_end(ls, j + 1);
    }
}

/// Cues read from line `i` on, numbered from `next`.
#[verifier::opaque]
pub open spec fn parse_from(ls: Seq<Seq<char>>, i: nat, next: nat) -> Result<
    Seq<CueModel>,
    FailureModel,
>
    decreases ls.len() - i,
{
    if i >= ls.len() {
        Ok(Seq::empty())
    } else if is_blank(ls[i as int]) || is_header_line(ls[i as int]) {
        parse_from(ls, i + 1, next)
    } else if is_block_head(ls[i as int]) {
        proof {
            lemma_block_end(ls, i + 1);
        }
        parse_from(ls, block_end(ls, i + 1), next)
    } else if !is_timing_line(ls[i as int]) && !(i + 1 < ls.len() && is_timing_line(
        ls[i as int + 1],
    )) {
        Err(FailureModel::Rejected(ParseErrorModel::MissingArrow { line: i + 1 }))
    } else {
        let t: nat = if is_timing_line(ls[i as int]) {
            i
        } else {
            i + 1
        };
        let timing = ls[t as int];
        let bad = FailureModel::Rejected(
            ParseErrorModel::BadTiming { line: i + 1, text: timing },
        );
        match timestamp_value(timing_start(timing)) {
            None => Err(bad),
            Some(start) => if start > i64::MAX {
                Err(FailureModel::TooLarge)
            } else {
                match timestamp_value(timing_end(timing)) {
                    None => Err(bad),
                    Some(end) => if end > i64::MAX {
                        Err(FailureModel::TooLarge)
                    } else {
                        proof {
                            lemma_block_end(ls, t + 1);
                        }
                        let j = block_end(ls, t + 1);
                        let cue = CueModel {
                            index: next,
                            start,
                            end,
                            text: join_lines(ls.subrange(t as int + 1, j as int)),
                        };
                        match parse_from(ls, j, next + 1) {
                            Ok(rest) => Ok(seq![cue] + rest),
                            Err(e) => Err(e),
                        }
                    },
                }
            },
        }
    }
}

/// The result of parsing `input`: its cues numbered from 1, or the failure.
pub open spec fn parse_model(input: Seq<char>) -> Result<Seq<CueModel>, FailureModel> {
    match parse_from(lines_of(normalize(input)), 0, 1) {
        Ok(cues) => if cues.len() == 0 {
            Err(FailureModel::Rejected(ParseErrorModel::Empty))
        } else {
            Ok(cues)
        },
        Err(e) => Err(e),
    }
}

/// Whether `input` holds a well-formed timestamp past `i64::MAX` milliseconds
/// before anything that makes parsing stop.
pub open spec fn parse_too_large(input: Seq<char>) -> bool {
    parse_model(input) matches Err(f) && f is TooLarge
}

pub open spec fn prepend(p: Seq<CueModel>, r: Result<Seq<CueModel>, FailureModel>) -> Result<
    Seq<CueModel>,
    FailureModel,
> {
    match r {
        Ok(x) => Ok(p + x),
        Err(e) => Err(e),
    }
}

// ---------------------------------------------------------------------------
// The parser
// ---------------------------------------------------------------------------

/// The position of the first `-->` in `v`.
fn find_arrow(v: &Vec<char>) -> (r: usize)
    ensures
        r == arrow_index(v@),
{
    let n = v.len();
    let mut i: usize = 0;
    while i < n && n - i >= 3
        invariant
            i <= n == v.len(),
            arrow_from(v@, 0) == arrow_from(v@, i as nat),
        decreases n - i,
    {
        if v[i] == '-' && v[i + 1] == '-' && v[i + 2] == '>' {
            return i;
        }
        i += 1;
    }
    n
}

/// Bounds of `first_token(v[lo..hi])`.
fn token_bounds(v: &Vec<char>, lo: usize, hi: usize) -> (r: (usize, usize))
    requires
        lo <= hi <= v.len(),
    ensures
        r.0 <= r.1 <= hi,
        v@.subrange(r.0 as int, r.1 as int) == first_token(v@.subrange(lo as int, hi as int)),
{
    let (a, _) = trim_start_bound(v, lo, hi);
    let ghost u = v@.subrange(a as int, hi as int);
    let mut k = a;
    while k < hi && !is_ws_char(v[k])
        invariant
            a <= k <= hi <= v.len(),
            forall|j: int| a <= j < k ==> !is_ws(#[trigger] v@[j]),
        decreases hi - k,
    {
        k += 1;
    }
    proof {
        assert forall|j: int| 0 <= j < k - a implies !(#[trigger] ws()(u[j])) by {
            assert(u[j] == v@[a + j]);
        }
        if k < hi {
            assert(u[k - a] == v@[k as int]);
        }
        lemma_first_index(u, ws(), (k - a) as nat);
        assert(u.take(k - a) =~= v@.subrange(a as int, k as int));
    }
    (a, k)
}

/// Reads the start and end of a timing line that holds `-->` at `arrow`.
fn read_timing(line: &Vec<char>, arrow: usize) -> (r: (Reading, Reading))
    requires
        arrow == arrow_index(line@),
        arrow < line.len(),
    ensures
        reading_of(timing_start(line@), r.0),
        reading_of(timing_end(line@), r.1),
{
    let n = line.len();
    let (sa, sb) = trim_bounds(line, 0, arrow);
    assert(line@.subrange(0, arrow as int) =~= line@.take(arrow as int));
    let start = read_timestamp(line, sa, sb);
    proof {
        assert(is_arrow_at(line@, arrow as int)) by {
            lemma_arrow_found(line@, 0);
        }
    }
    let (ea, eb) = token_bounds(line, arrow + 3, n);
    assert(line@.subrange(arrow + 3, n as int) =~= line@.skip(arrow + 3));
    let end = read_timestamp(line, ea, eb);
    (start, end)
}

proof fn lemma_arrow_found(s: Seq<char>, i: nat)
    requires
        arrow_from(s, i) < s.len(),
    ensures
        is_arrow_at(s, arrow_from(s, i) as int),
    decreases s.len() - i,
{
    if !(i + 3 > s.len()) && !is_arrow_at(s, i as int) {
        lemma_arrow_found(s, i + 1);
    }
}

/// `lines[lo..hi]` joined with `\n`.
fn join_range(lines: &Vec<Vec<char>>, lo: usize, hi: usize) -> (s: String)
    requires
        lo <= hi <= lines.len(),
    ensures
        s@ == join_lines(views(lines@).subrange(lo as int, hi as int)),
{
    let ghost ls = views(lines@);
    let mut s = String::new();
    let mut k = lo;
    assert(ls.subrange(lo as int, lo as int) =~= Seq::<Seq<char>>::empty());
    while k < hi
        invariant
            lo <= k <= hi <= lines.len(),
            ls == views(lines@),
            s@ == join_lines(ls.subrange(lo as int, k as int)),
        decreases hi - k,
    {
        let ghost prev = ls.subrange(lo as int, (k + 1) as int);
        assert(prev.drop_last() =~= ls.subrange(lo as int, k as int));
        assert(prev.last() == lines@[k as int]@);
        if k > lo {
            push_char(&mut s, '\n');
        }
        push_all(&mut s, &lines[k]);
        proof {
            if k == lo {
                assert(s@ =~= prev[0]);
            } else {
                assert(s@ =~= join_lines(prev.drop_last()) + seq!['\n'] + prev.last());
            }
        }
        k += 1;
    }
    s
}

/// Parse subtitle text (SRT or VTT, detected per cue) into cues, or report why
/// it cannot be parsed; a timestamp past `i64::MAX` milliseconds is reported as
/// `TooLarge`.
pub fn try_parse(input: &str) -> (r: Result<Vec<Cue>, ParseFailure>)
    ensures
        match parse_model(input@) {
            Ok(cues) => r matches Ok(v) && cue_models(v@) == cues,
            Err(f) => r matches Err(e) && e@ == f,
        },
{
    reveal(parse_from);
    let raw = chars_of(input);
    let text = normalize_chars(&raw);
    let lines = lines_chars(&text);
    let ghost ls = views(lines@);
    let n = lines.len();
    let lit_webvtt: Vec<char> = vec!['W', 'E', 'B', 'V', 'T', 'T'];
    let lit_note: Vec<char> = vec!['N', 'O', 'T', 'E'];
    let lit_note_space: Vec<char> = vec!['N', 'O', 'T', 'E', ' '];
    let lit_style: Vec<char> = vec!['S', 'T', 'Y', 'L', 'E'];
    let lit_region: Vec<char> = vec!['R', 'E', 'G', 'I', 'O', 'N'];
    let mut cues: Vec<Cue> = Vec::new();
    let mut i: usize = 0;
    assert(cue_models(cues@) =~= Seq::<CueModel>::empty());
    assert(prepend(Seq::empty(), parse_from(ls, 0, 1)) =~= parse_from(ls, 0, 1)) by {
        match parse_from(ls, 0, 1) {
            Ok(x) => {
                assert(Seq::<CueModel>::empty() + x =~= x);
            },
            Err(_) => {},
        }
    }
    while i < n
        invariant
            n == lines.len() == ls.len(),
            ls == views(lines@),
            ls == lines_of(normalize(input@)),
            lit_webvtt@ == webvtt(),
            lit_note@ == note(),
            lit_note_space@ == note_space(),
            lit_style@ == style(),
            lit_region@ == region(),
            i <= n,
            cues.len() <= i,
            prepend(cue_models(cues@), parse_from(ls, i as nat, (cues.len() + 1) as nat))
                == parse_from(ls, 0, 1),
        decreases n - i,
    {
        proof {
            reveal(parse_from);
        }
        let line = &lines[i];
        assert(ls[i as int] == line@);
        let ll = line.len();
        assert(line@.subrange(0, ll as int) =~= line@);
        if is_blank_vec(line) {
            i += 1;
            continue;
        }
        let (h, _) = trim_start_bound(line, 0, ll);
        if range_starts_with(line, h, ll, &lit_webvtt) {
            i += 1;
            continue;
        }
        if range_equals(line, h, ll, &lit_note) || range_starts_with(line, h, ll, &lit_note_space)
            || range_equals(line, h, ll, &lit_style) || range_equals(line, h, ll, &lit_region) {
            let mut j = i + 1;
            while j < n && !is_blank_vec(&lines[j])
                invariant
                    n == lines.len() == ls.len(),
                    ls == views(lines@),
                    i < j <= n,
                    block_end(ls, (i + 1) as nat) == block_end(ls, j as nat),
                decreases n - j,
            {
                assert(ls[j as int] == lines@[j as int]@);
                j += 1;
            }
            proof {
                if j < n {
                    assert(ls[j as int] == lines@[j as int]@);
                }
            }
            i = j;
            continue;
        }
        // This line starts a cue: it is the timing line or its identifier.
        let a0 = find_arrow(line);
        let t = if a0 < ll {
            i
        } else if i + 1 < n && find_arrow(&lines[i + 1]) < lines[i + 1].len() {
            assert(ls[i + 1] == lines@[i + 1]@);
            i + 1
        } else {
            proof {
                if i + 1 < n {
                    assert(ls[i + 1] == lines@[i + 1]@);
                }
            }
            return Err(ParseFailure::Rejected(ParseError::MissingArrow { line: i + 1 }));
        };
        let timing = &lines[t];
        assert(ls[t as int] == timing@);
        let arrow = find_arrow(timing);
        let (rs, re) = read_timing(timing, arrow);
        let start = match rs {
            Reading::Value(x) => x,
            Reading::Malformed => {
                return Err(
                    ParseFailure::Rejected(
                        ParseError::BadTiming { line: i + 1, text: string_of(timing) },
                    ),
                );
            },
            Reading::TooLarge => {
                return Err(ParseFailure::TooLarge);
            },
        };
        let end = match re {
            Reading::Value(x) => x,
            Reading::Malformed => {
                return Err(
                    ParseFailure::Rejected(
                        ParseError::BadTiming { line: i + 1, text: string_of(timing) },
                    ),
                );
            },
            Reading::TooLarge => {
                return Err(ParseFailure::TooLarge);
            },
        };
        // The body: every line after the timing line up to a blank line.
        let mut j = t + 1;
        while j < n && !is_blank_vec(&lines[j])
            invariant
                n == lines.len() == ls.len(),
                ls == views(lines@),
                t < j <= n,
                block_end(ls, (t + 1) as nat) == block_end(ls, j as nat),
            decreases n - j,
        {
            assert(ls[j as int] == lines@[j as int]@);
            j += 1;
        }
        proof {
            if j < n {
                assert(ls[j as int] == lines@[j as int]@);
            }
        }
        let body = join_range(&lines, t + 1, j);
        let ghost before = cue_models(cues@);
        let cue = Cue {
            index: cues.len() + 1,
            start: Timestamp { ms: start },
            end: Timestamp { ms: end },
            text: body,
        };
        cues.push(cue);
        proof {
            assert(cue_models(cues@) =~= before.push(cue@));
            let rest = parse_from(ls, j as nat, (cues.len() + 1) as nat);
            match rest {
                Ok(x) => {
                    assert(before + (seq![cue@] + x) =~= before.push(cue@) + x);
                },
                Err(_) => {},
            }
        }
        i = j;
    }
    assert(parse_from(ls, i as nat, (cues.len() + 1) as nat) == Ok::<Seq<CueModel>, FailureModel>(
        Seq::empty(),
    ));
    assert(cue_models(cues@) + Seq::<CueModel>::empty() =~= cue_models(cues@));
    if cues.len() == 0 {
        return Err(ParseFailure::Rejected(ParseError::Empty));
    }
    Ok(cues)
}

/// Parse subtitle text (SRT or VTT, detected per cue) into cues. VTT headers,
/// `NOTE`, `STYLE` and `REGION` blocks and cue identifiers are skipped; cues
/// are numbered 1..N by order of appearance.
pub fn parse(input: &str) -> (r: Result<Vec<Cue>, ParseError>)
    requires
        !parse_too_large(input@),
    ensures
        match parse_model(input@) {
            Ok(cues) => r matches Ok(v) && cue_models(v@) == cues,
            Err(f) => f matches FailureModel::Rejected(e) && r matches Err(err) && err@ == e,
        },
{
    match try_parse(input) {
        Ok(v) => Ok(v),
        Err(ParseFailure::Rejected(e)) => Err(e),
        Err(ParseFailure::TooLarge) => {
            assert(false);
            Err(ParseError::Empty)
        },
    }
}

} // verus!
