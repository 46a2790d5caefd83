//! Serializing cues to SRT and WebVTT text.

use vstd::prelude::*;
use crate::cue::{Cue, CueModel, cue_models};
use crate::format::Format;
use crate::numeral::{decimal, push_decimal};
use crate::text::{push_char, push_all, chars_of};
use crate::timestamp::{clock_text, push_clock};

verus! {

pub open spec fn arrow_text() -> Seq<char> {
    seq![' ', '-', '-', '>', ' ']
}

/// One cue as written: its index line, its timing line, its body lines when
/// the body is not empty, and a blank line. `sep` separates the milliseconds
/// (`,` in SRT, `.` in WebVTT).
pub open spec fn cue_block(c: CueModel, sep: char) -> Seq<char> {
    decimal(c.index) + seq!['\n'] + clock_text(c.start, sep) + arrow_text() + clock_text(c.end, sep)
        + seq!['\n'] + (if c.text.len() == 0 {
        Seq::empty()
    } else {
        c.text + seq!['\n']
    }) + seq!['\n']
}

/// The blocks of all cues, in the order given.
pub open spec fn cue_blocks(cs: Seq<CueModel>, sep: char) -> Seq<char>
    decreases cs.len(),
{
    if cs.len() == 0 {
        Seq::empty()
    } else {
        cue_blocks(cs.drop_last(), sep) + cue_block(cs.last(), sep)
    }
}

pub open spec fn srt_text(cs: Seq<CueModel>) -> Seq<char> {
    cue_blocks(cs, ',')
}

/// The `WEBVTT` header and a blank line, then the cue blocks.
pub open spec fn vtt_text(cs: Seq<CueModel>) -> Seq<char> {
    seq!['W', 'E', 'B', 'V', 'T', 'T', '\n', '\n'] + cue_blocks(cs, '.')
}

fn push_cue(out: &mut String, cue: &Cue, sep: char)
    ensures
        final(out)@ == old(out)@ + cue_block(cue@, sep),
{
    push_decimal(out, cue.index as u64);
    push_char(out, '\n');
    push_clock(out, cue.start, sep);
    push_char(out, ' ');
    push_char(out, '-');
    push_char(out, '-');
    push_char(out, '>');
    push_char(out, ' ');
    push_clock(out, cue.end, sep);
    push_char(out, '\n');
    let body = chars_of(cue.text.as_str());
    if body.len() > 0 {
        push_all(out, &body);
        push_char(out, '\n');
    }
    push_char(out, '\n');
    assert(out@ =~= old(out)@ + cue_block(cue@, sep));
}

fn push_cues(out: &mut String, cues: &[Cue], sep: char)
    ensures
        final(out)@ == old(out)@ + cue_blocks(cue_models(cues@), sep),
{
    let n = cues.len();
    let mut i: usize = 0;
    assert(cue_models(cues@).take(0) =~= Seq::<CueModel>::empty());
    while i < n
        invariant
            i <= n == cues@.len(),
            out@ == old(out)@ + cue_blocks(cue_models(cues@).take(i as int), sep),
        decreases n - i,
    {
        push_cue(out, &cues[i], sep);
        let ghost prefix = cue_models(cues@).take(i + 1);
        assert(prefix.drop_last() =~= cue_models(cues@).take(i as int));
        assert(prefix.last() == cues@[i as int]@);
        assert(out@ =~= old(out)@ + cue_blocks(prefix, sep));
        i += 1;
    }
    assert(cue_models(cues@).take(n as int) =~= cue_models(cues@));
}

/// Serialize cues to SRT text. Uses `\n` line endings and a trailing newline.
/// Cues are written in the order given, with their own `index`.
pub fn to_srt(cues: &[Cue]) -> (s: String)
    ensures
        s@ == srt_text(cue_models(cues@)),
{
    let mut out = String::new();
    push_cues(&mut out, cues, ',');
    assert(out@ =~= srt_text(cue_models(cues@)));
    out
}

/// Serialize cues to WebVTT text: the `WEBVTT` header and a blank line, then
/// each cue with `.`-style millisecond separators.
pub fn to_vtt(cues: &[Cue]) -> (s: String)
    ensures
        s@ == vtt_text(cue_models(cues@)),
{
    let mut out = String::new();
    push_char(&mut out, 'W');
    push_char(&mut out, 'E');
    push_char(&mut out, 'B');
    push_char(&mut out, 'V');
    push_char(&mut out, 'T');
    push_char(&mut out, 'T');
    push_char(&mut out, '\n');
    push_char(&mut out, '\n');
    push_cues(&mut out, cues, '.');
    assert(out@ =~= vtt_text(cue_models(cues@)));
    out
}

/// Serialize to the given [`Format`].
pub fn to_format(cues: &[Cue], format: Format) -> (s: String)
    ensures
        s@ == match format {
            Format::Srt => srt_text(cue_models(cues@)),
            Format::Vtt => vtt_text(cue_models(cues@)),
        },
{
    match format {
        Format::Srt => to_srt(cues),
        Format::Vtt => to_vtt(cues),
    }
}

} // verus!
