//! Subtitle cues and their model.

use vstd::prelude::*;
use crate::text::{chars_of, is_blank, is_blank_vec};
use crate::timestamp::Timestamp;

verus! {

/// A single subtitle cue.
#[derive(Debug, Clone, PartialEq, Eq)]
pub struct Cue {
    /// 1-based sequence number. Not authoritative: `fix` / `renumber` rewrite
    /// it; parsing assigns it by order of appearance.
    pub index: usize,
    pub start: Timestamp,
    pub end: Timestamp,
    /// The cue body, with internal `\n` between lines and no trailing newline.
    pub text: String,
}

/// The mathematical model of a [`Cue`].
pub struct CueModel {
    pub index: nat,
    pub start: int,
    pub end: int,
    pub text: Seq<char>,
}

impl View for Cue {
    type V = CueModel;

    open spec fn view(&self) -> CueModel {
        CueModel {
            index: self.index as nat,
            start: self.start.ms as int,
            end: self.end.ms as int,
            text: self.text@,
        }
    }
}

/// The models of a sequence of cues.
pub open spec fn cue_models(v: Seq<Cue>) -> Seq<CueModel> {
    Seq::new(v.len(), |i: int| v[i]@)
}

/// A cue is empty when its body has no non-whitespace character.
pub open spec fn text_is_empty(text: Seq<char>) -> bool {
    is_blank(text)
}

impl Cue {
    pub fn new(index: usize, start: Timestamp, end: Timestamp, text: &str) -> (c: Cue)
        ensures
            c@ == (CueModel {
                index: index as nat,
                start: start.ms as int,
                end: end.ms as int,
                text: text@,
            }),
    {
        Cue { index, start, end, text: text.to_owned() }
    }

    /// Milliseconds from start to end.
    pub fn duration_ms(&self) -> (d: i64)
        requires
            i64::MIN <= self.end.ms - self.start.ms <= i64::MAX,
        ensures
            d == self.end.ms - self.start.ms,
    {
        self.end.ms - self.start.ms
    }

    /// A cue is "empty" if its body has no non-whitespace characters.
    pub fn is_empty(&self) -> (b: bool)
        ensures
            b == text_is_empty(self.text@),
    {
        let v = chars_of(self.text.as_str());
        is_blank_vec(&v)
    }

    /// A copy of this cue (the derived `Clone`, with its result stated).
    pub fn duplicate(&self) -> (c: Cue)
        ensures
            c@ == self@,
    {
        Cue { index: self.index, start: self.start, end: self.end, text: self.text.clone() }
    }
}

} // verus!
