//! Laws of shifting and merging.

use vstd::prelude::*;
use crate::cue::CueModel;
use crate::edit::{concat_offset, offset_cue, renumbered, shift_applies, shifted_cue};
use crate::timestamp::{Timestamp, shifted_ms};

verus! {

/// Shifting never moves a time below zero, and leaves the cues it does not
/// apply to as they are.
pub proof fn lemma_shift_never_negative(c: CueModel, delta: int, from: Option<Timestamp>)
    ensures
        shift_applies(c, from) ==> shifted_cue(c, delta, from).start >= 0
            && shifted_cue(c, delta, from).end >= 0,
        !shift_applies(c, from) ==> shifted_cue(c, delta, from) == c,
        shifted_cue(c, delta, from).index == c.index,
        shifted_cue(c, delta, from).text == c.text,
{
}

/// Shifting every cue by `delta` and then by `-delta` gives the cues back,
/// when no time was negative and none had to be clamped at zero.
pub proof fn lemma_shift_undone(cs: Seq<CueModel>, delta: int)
    requires
        forall|i: int|
            0 <= i < cs.len() ==> 0 <= (#[trigger] cs[i]).start && 0 <= cs[i].end && 0 <= cs[i].start
                + delta && 0 <= cs[i].end + delta,
    ensures
        Seq::new(
            cs.len(),
            |i: int| shifted_cue(shifted_cue(cs[i], delta, None), -delta, None),
        ) == cs,
{
    assert(Seq::new(
        cs.len(),
        |i: int| shifted_cue(shifted_cue(cs[i], delta, None), -delta, None),
    ) =~= cs);
}

/// Two shifts in the same direction of a time that is not negative make one
/// shift by their sum. (In opposite directions they need not: a time clamped
/// at zero by the first shift has lost how far below zero it went.)
pub proof fn lemma_shift_compose(ms: int, a: int, b: int)
    requires
        ms >= 0,
        (a >= 0 && b >= 0) || (a <= 0 && b <= 0),
    ensures
        shifted_ms(shifted_ms(ms, a), b) == shifted_ms(ms, a + b),
{
}

/// The lists concatenated, in order.
pub open spec fn concat_all(lists: Seq<Seq<CueModel>>) -> Seq<CueModel>
    decreases lists.len(),
{
    if lists.len() == 0 {
        Seq::empty()
    } else {
        concat_all(lists.drop_last()) + lists.last()
    }
}

/// Without an offset, merging keeps every cue's times: the merged cues are the
/// lists concatenated (then renumbered).
pub proof fn lemma_merge_without_offset(lists: Seq<Seq<CueModel>>)
    ensures
        concat_offset(lists, 0) == concat_all(lists),
    decreases lists.len(),
{
    if lists.len() > 0 {
        lemma_merge_without_offset(lists.drop_last());
        let k = lists.len() - 1;
        assert(0 * k == 0);
        assert(lists.last().map_values(|c: CueModel| offset_cue(c, 0 * k)) =~= lists.last());
    }
}

/// Merging keeps the number of cues: the sum of the lists' lengths.
pub proof fn lemma_merge_length(lists: Seq<Seq<CueModel>>, offset: int)
    ensures
        concat_offset(lists, offset).len() == concat_all(lists).len(),
    decreases lists.len(),
{
    if lists.len() > 0 {
        lemma_merge_length(lists.drop_last(), offset);
    }
}

/// `t` moved by `delta`, held at zero when it would go below.
pub open spec fn moved_time(t: int, delta: int) -> int {
    if t + delta < 0 {
        0
    } else {
        t + delta
    }
}

/// With a threshold, `shift` leaves a cue that starts before it as it is and
/// moves a cue that starts at or after it, start and end alike, saturating at
/// zero; the choice depends on the cue's start alone. Without a threshold
/// every cue is moved.
pub proof fn lemma_shift_threshold(c: CueModel, delta: int, from: Option<Timestamp>)
    ensures
        from matches Some(t) && c.start < t.ms ==> shifted_cue(c, delta, from) == c,
        (from matches Some(t) && c.start >= t.ms) || from is None ==> shifted_cue(c, delta, from)
            == (CueModel {
            start: moved_time(c.start, delta),
            end: moved_time(c.end, delta),
            ..c
        }),
{
}

/// The merged cues, in order, are those of each list `k` in turn: the cue
/// at position `j` of list `k` stands at position `k'` + `j`, where `k'` is
/// the number of cues in the lists before it; it keeps its body, is numbered
/// by its position, and has start and end moved by `k * offset` (saturating
/// at zero) when that is not zero, and left as they are when it is zero.
pub proof fn lemma_merge_places(lists: Seq<Seq<CueModel>>, offset: int, k: int, j: int)
    requires
        0 <= k < lists.len(),
        0 <= j < lists[k].len(),
    ensures
        ({
            let m = renumbered(concat_offset(lists, offset));
            let p = concat_all(lists.take(k)).len() + j;
            let c = lists[k][j];
            &&& m.len() == concat_all(lists).len()
            &&& p < m.len()
            &&& m[p].index == p + 1
            &&& m[p].text == c.text
            &&& offset * k != 0 ==> m[p].start == moved_time(c.start, offset * k) && m[p].end
                == moved_time(c.end, offset * k)
            &&& offset * k == 0 ==> m[p].start == c.start && m[p].end == c.end
        }),
    decreases lists.len(),
{
    let n = lists.len();
    let init = lists.drop_last();
    let co = concat_offset(lists, offset);
    lemma_concat_offset_len(lists, offset);
    lemma_concat_offset_len(init, offset);
    if k < n - 1 {
        lemma_merge_places(init, offset, k, j);
        assert(init.take(k) =~= lists.take(k));
        assert(init[k] == lists[k]);
        let p = concat_all(lists.take(k)).len() + j;
        assert(co[p] == concat_offset(init, offset)[p]);
    } else {
        assert(lists.take(k) =~= init);
        let p = concat_all(init).len() + j;
        let last = lists.last();
        assert(co[p] == last.map_values(|c: CueModel| offset_cue(c, offset * (n - 1)))[j]);
    }
    lemma_concat_all_take(lists, k);
}

proof fn lemma_concat_offset_len(lists: Seq<Seq<CueModel>>, offset: int)
    ensures
        concat_offset(lists, offset).len() == concat_all(lists).len(),
    decreases lists.len(),
{
    if lists.len() > 0 {
        lemma_concat_offset_len(lists.drop_last(), offset);
    }
}

proof fn lemma_concat_all_take(lists: Seq<Seq<CueModel>>, k: int)
    requires
        0 <= k < lists.len(),
    ensures
        concat_all(lists.take(k)).len() + lists[k].len() <= concat_all(lists).len(),
    decreases lists.len(),
{
    if k < lists.len() - 1 {
        lemma_concat_all_take(lists.drop_last(), k);
        assert(lists.drop_last().take(k) =~= lists.take(k));
    } else {
        assert(lists.take(k) =~= lists.drop_last());
    }
}

} // verus!
