//! Summary figures of a cue list: count, time span and on-screen time.

use vstd::prelude::*;
use crate::cue::{Cue, CueModel, cue_models};
use crate::numeral::{decimal, push_decimal};
use crate::text::{chars_of, push_all};
use crate::timestamp::{Timestamp, srt_time};

verus! {

/// Cue count, first start, last end, span and total on-screen time.
#[derive(Debug, Clone, Copy, PartialEq, Eq)]
pub struct Stats {
    pub count: usize,
    /// The earliest start, `None` without cues.
    pub first_start: Option<Timestamp>,
    /// The latest end, `None` without cues.
    pub last_end: Option<Timestamp>,
    /// From the earliest start to the latest end (0 without cues).
    pub span_ms: i64,
    /// The sum of the cues' durations (a cue ending before it starts counts 0).
    pub display_ms: i64,
}

pub open spec fn min_start(s: Seq<CueModel>) -> int
    decreases s.len(),
{
    if s.len() <= 1 {
        s[0].start
    } else {
        let m = min_start(s.drop_last());
        if s.last().start < m {
            s.last().start
        } else {
            m
        }
    }
}

pub open spec fn max_end(s: Seq<CueModel>) -> int
    decreases s.len(),
{
    if s.len() <= 1 {
        s[0].end
    } else {
        let m = max_end(s.drop_last());
        if s.last().end > m {
            s.last().end
        } else {
            m
        }
    }
}

/// How long `c` is on screen.
pub open spec fn shown(c: CueModel) -> int {
    if c.end > c.start {
        c.end - c.start
    } else {
        0
    }
}

pub open spec fn on_screen(s: Seq<CueModel>) -> int
    decreases s.len(),
{
    if s.len() == 0 {
        0
    } else {
        on_screen(s.drop_last()) + shown(s.last())
    }
}

pub open spec fn span(s: Seq<CueModel>) -> int {
    if s.len() == 0 || max_end(s) < min_start(s) {
        0
    } else {
        max_end(s) - min_start(s)
    }
}

proof fn lemma_on_screen_prefix(s: Seq<CueModel>, i: int)
    requires
        0 <= i <= s.len(),
    ensures
        0 <= on_screen(s.take(i)) <= on_screen(s),
    decreases s.len() - i,
{
    if i < s.len() {
        lemma_on_screen_prefix(s, i + 1);
        lemma_on_screen_nonneg(s.take(i));
        assert(s.take(i + 1).drop_last() =~= s.take(i));
        assert(on_screen(s.take(i + 1)) == on_screen(s.take(i)) + shown(s.take(i + 1).last()));
    } else {
        assert(s.take(i) =~= s);
        lemma_on_screen_nonneg(s);
    }
}

proof fn lemma_on_screen_nonneg(s: Seq<CueModel>)
    ensures
        on_screen(s) >= 0,
    decreases s.len(),
{
    if s.len() > 0 {
        lemma_on_screen_nonneg(s.drop_last());
    }
}

/// Count, earliest start, latest end, span and total on-screen time.
pub fn stats(cues: &[Cue]) -> (r: Stats)
    requires
        on_screen(cue_models(cues@)) <= i64::MAX,
        span(cue_models(cues@)) <= i64::MAX,
    ensures
        r.count == cues@.len(),
        r.first_start == (if cues@.len() == 0 {
            None
        } else {
            Some(Timestamp { ms: min_start(cue_models(cues@)) as i64 })
        }),
        r.last_end == (if cues@.len() == 0 {
            None
        } else {
            Some(Timestamp { ms: max_end(cue_models(cues@)) as i64 })
        }),
        r.span_ms == span(cue_models(cues@)),
        r.display_ms == on_screen(cue_models(cues@)),
{
    let ghost s = cue_models(cues@);
    let n = cues.len();
    if n == 0 {
        return Stats { count: 0, first_start: None, last_end: None, span_ms: 0, display_ms: 0 };
    }
    let mut lo: i64 = cues[0].start.ms;
    let mut hi: i64 = cues[0].end.ms;
    let mut shown_total: i64 = 0;
    let mut i: usize = 0;
    assert(s.take(0) =~= Seq::<CueModel>::empty());
    while i < n
        invariant
            0 < n == cues@.len() == s.len(),
            s == cue_models(cues@),
            on_screen(s) <= i64::MAX,
            i <= n,
            shown_total == on_screen(s.take(i as int)),
            i == 0 ==> lo == s[0].start && hi == s[0].end,
            i > 0 ==> lo == min_start(s.take(i as int)) && hi == max_end(s.take(i as int)),
        decreases n - i,
    {
        let c = &cues[i];
        assert(s[i as int] == c@);
        let ghost prefix = s.take(i + 1);
        assert(prefix.drop_last() =~= s.take(i as int));
        assert(prefix.last() == c@);
        proof {
            lemma_on_screen_prefix(s, i + 1);
            lemma_on_screen_nonneg(s.take(i as int));
            assert(on_screen(prefix) == on_screen(s.take(i as int)) + shown(c@));
        }
        let d: i128 = c.end.ms as i128 - c.start.ms as i128;
        let add: i64 = if d > 0 {
            d as i64
        } else {
            0
        };
        shown_total = shown_total + add;
        if i > 0 {
            if c.start.ms < lo {
                lo = c.start.ms;
            }
            if c.end.ms > hi {
                hi = c.end.ms;
            }
        }
        i += 1;
    }
    assert(s.take(n as int) =~= s);
    let diff: i128 = hi as i128 - lo as i128;
    let span_ms: i64 = if diff > 0 {
        diff as i64
    } else {
        0
    };
    Stats {
        count: n,
        first_start: Some(Timestamp { ms: lo }),
        last_end: Some(Timestamp { ms: hi }),
        span_ms,
        display_ms: shown_total,
    }
}

/// A time in SRT form, or `-` when there is none.
pub open spec fn time_or_dash(t: Option<Timestamp>) -> Seq<char> {
    match t {
        Some(x) => srt_time(x.ms as int),
        None => "-"@,
    }
}

/// The report of the figures, one aligned line each, durations in SRT time
/// form.
pub open spec fn stats_report(s: Stats) -> Seq<char> {
    "cues:      "@ + decimal(s.count as nat) + "\nfirst:     "@ + time_or_dash(s.first_start)
        + "\nlast:      "@ + time_or_dash(s.last_end) + "\nspan:      "@ + srt_time(
        s.span_ms as int,
    ) + "\non-screen: "@ + srt_time(s.display_ms as int) + "\n"@
}

fn push_str(out: &mut String, s: &str)
    ensures
        final(out)@ == old(out)@ + s@,
{
    let v = chars_of(s);
    push_all(out, &v);
}

fn push_time_or_dash(out: &mut String, t: Option<Timestamp>)
    ensures
        final(out)@ == old(out)@ + time_or_dash(t),
{
    match t {
        Some(x) => push_str(out, x.to_srt().as_str()),
        None => push_str(out, "-"),
    }
}

/// Render the figures as an aligned report, one line each with a trailing
/// newline: cue count, first start, last end, span and on-screen time.
pub fn stats_text(s: &Stats) -> (r: String)
    ensures
        r@ == stats_report(*s),
{
    let mut out = String::new();
    push_str(&mut out, "cues:      ");
    push_decimal(&mut out, s.count as u64);
    push_str(&mut out, "\nfirst:     ");
    push_time_or_dash(&mut out, s.first_start);
    push_str(&mut out, "\nlast:      ");
    push_time_or_dash(&mut out, s.last_end);
    push_str(&mut out, "\nspan:      ");
    push_str(&mut out, Timestamp::from_ms(s.span_ms).to_srt().as_str());
    push_str(&mut out, "\non-screen: ");
    push_str(&mut out, Timestamp::from_ms(s.display_ms).to_srt().as_str());
    push_str(&mut out, "\n");
    assert(out@ =~= stats_report(*s));
    out
}

} // verus!
