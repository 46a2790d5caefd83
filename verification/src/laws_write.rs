//! What the SRT and WebVTT writers put out, cue by cue.

use vstd::prelude::*;
use crate::cue::CueModel;
use crate::numeral::decimal;
use crate::timestamp::clock_text;
use crate::write::{srt_text, vtt_text};

verus! {

/// The text written for one cue: its own index, then its start and end with
/// `sep` before the milliseconds, then its body lines (none for an empty
/// body), then a blank line.
pub open spec fn written_cue(c: CueModel, sep: char) -> Seq<char> {
    decimal(c.index) + seq!['\n'] + clock_text(c.start, sep) + seq![' ', '-', '-', '>', ' ']
        + clock_text(c.end, sep) + seq!['\n'] + (if c.text.len() == 0 {
        Seq::empty()
    } else {
        c.text + seq!['\n']
    }) + seq!['\n']
}

/// SRT text of no cues is empty, and writing one more cue appends that cue,
/// with its own index, whatever the indices of the cues are.
pub proof fn lemma_srt_cue_by_cue(cs: Seq<CueModel>, c: CueModel)
    ensures
        srt_text(Seq::empty()) == Seq::<char>::empty(),
        srt_text(cs.push(c)) == srt_text(cs) + written_cue(c, ','),
{
    assert(cs.push(c).drop_last() =~= cs);
}

/// WebVTT text of no cues is the `WEBVTT` header and a blank line, and
/// writing one more cue appends that cue, with its own index, whatever the
/// indices of the cues are.
pub proof fn lemma_vtt_cue_by_cue(cs: Seq<CueModel>, c: CueModel)
    ensures
        vtt_text(Seq::empty()) == seq!['W', 'E', 'B', 'V', 'T', 'T', '\n', '\n'],
        vtt_text(cs.push(c)) == vtt_text(cs) + written_cue(c, '.'),
{
    assert(cs.push(c).drop_last() =~= cs);
    assert(vtt_text(Seq::empty()) =~= seq!['W', 'E', 'B', 'V', 'T', 'T', '\n', '\n']);
    assert(vtt_text(cs.push(c)) =~= vtt_text(cs) + written_cue(c, '.'));
}

} // verus!
