//! What `fix` guarantees of its result, and that fixing twice changes nothing.

use vstd::prelude::*;
use crate::cue::{CueModel, text_is_empty};
use crate::edit::renumbered;
use crate::fix::{
    clamp_overlaps, fixed, lemma_stable_sort_exists, lemma_stable_sort_permutes,
    lemma_stable_sort_unique, prepared, raise_end, sort_by_start, stable_sort_of,
};

verus! {

/// Every prepared cue has a body and does not end before it starts.
proof fn lemma_prepared_cues(s: Seq<CueModel>)
    ensures
        forall|i: int|
            0 <= i < prepared(s).len() ==> !text_is_empty(#[trigger] prepared(s)[i].text)
                && prepared(s)[i].start <= prepared(s)[i].end,
    decreases s.len(),
{
    if s.len() > 0 {
        let q = prepared(s.drop_last());
        lemma_prepared_cues(s.drop_last());
        let r = prepared(s);
        assert forall|i: int| 0 <= i < r.len() implies !text_is_empty(#[trigger] r[i].text)
            && r[i].start <= r[i].end by {
            if i < q.len() {
                assert(r[i] == q[i]);
            }
        }
    }
}

/// Cues that satisfy what `fix` guarantees.
pub open spec fn is_clean(r: Seq<CueModel>) -> bool {
    &&& forall|i: int| 0 <= i < r.len() ==> (#[trigger] r[i]).index == i + 1
    &&& forall|i: int| 0 <= i < r.len() ==> !text_is_empty((#[trigger] r[i]).text)
    &&& forall|i: int| 0 <= i < r.len() ==> (#[trigger] r[i]).start <= r[i].end
    &&& forall|i: int, j: int| 0 <= i < j < r.len() ==> (#[trigger] r[i]).start <= (#[trigger] r[j]).start
    &&& forall|i: int| 0 <= i < r.len() - 1 ==> (#[trigger] r[i]).end <= r[i + 1].start
}

/// `fix` returns its non-empty cues, numbered 1..N, ordered by start time,
/// each ending no earlier than it starts and no later than the next one
/// starts.
pub proof fn lemma_fix_is_clean(s: Seq<CueModel>)
    ensures
        is_clean(fixed(s)),
        fixed(s).len() == prepared(s).len(),
{
    broadcast use vstd::seq_lib::group_to_multiset_ensures;

    let p = prepared(s);
    let q = sort_by_start(p);
    let r = fixed(s);
    lemma_prepared_cues(s);
    lemma_stable_sort_exists(p);
    lemma_stable_sort_permutes(p, q);
    assert forall|i: int| 0 <= i < q.len() implies !text_is_empty((#[trigger] q[i]).text)
        && q[i].start <= q[i].end by {
        assert(q.contains(q[i]));
        assert(q.to_multiset().count(q[i]) > 0);
        assert(p.contains(q[i]));
        let k = choose|k: int| 0 <= k < p.len() && p[k] == q[i];
        assert(p[k] == q[i]);
    }
    assert forall|i: int| 0 <= i < r.len() implies (#[trigger] r[i]).start <= r[i].end by {
        assert(r[i].start == q[i].start);
        if i + 1 < q.len() {
            assert(q[i].start <= q[i + 1].start);
        }
    }
    assert forall|i: int, j: int| 0 <= i < j < r.len() implies (#[trigger] r[i]).start <= (
    #[trigger] r[j]).start by {
        assert(q[i].start <= q[j].start);
    }
    assert forall|i: int| 0 <= i < r.len() - 1 implies (#[trigger] r[i]).end <= r[i + 1].start by {
        assert(r[i + 1].start == q[i + 1].start);
    }
    assert forall|i: int| 0 <= i < r.len() implies !text_is_empty((#[trigger] r[i]).text) by {
        assert(r[i].text == q[i].text);
    }
}

proof fn lemma_prepared_identity(r: Seq<CueModel>)
    requires
        forall|i: int| 0 <= i < r.len() ==> !text_is_empty((#[trigger] r[i]).text),
        forall|i: int| 0 <= i < r.len() ==> (#[trigger] r[i]).start <= r[i].end,
    ensures
        prepared(r) == r,
    decreases r.len(),
{
    if r.len() > 0 {
        let init = r.drop_last();
        assert forall|i: int| 0 <= i < init.len() implies !text_is_empty((#[trigger] init[i]).text) by {
            assert(init[i] == r[i]);
        }
        assert forall|i: int| 0 <= i < init.len() implies (#[trigger] init[i]).start <= init[i].end by {
            assert(init[i] == r[i]);
        }
        lemma_prepared_identity(init);
        assert(raise_end(r.last()) == r.last());
        assert(init.push(r.last()) =~= r);
    }
}

/// Fixing cues a second time changes nothing.
pub proof fn lemma_fix_idempotent(s: Seq<CueModel>)
    ensures
        fixed(fixed(s)) == fixed(s),
{
    let r = fixed(s);
    lemma_fix_is_clean(s);
    lemma_prepared_identity(r);
    assert(stable_sort_of(r, r));
    lemma_stable_sort_unique(r, r);
    assert(clamp_overlaps(r) =~= r) by {
        assert forall|i: int| 0 <= i < r.len() implies clamp_overlaps(r)[i] == r[i] by {
            if i + 1 < r.len() {
                assert(r[i].end <= r[i + 1].start);
            }
        }
    }
    assert(renumbered(r) =~= r) by {
        assert forall|i: int| 0 <= i < r.len() implies renumbered(r)[i] == r[i] by {
            assert(r[i].index == i + 1);
        }
    }
}

/// Every prepared cue is a non-empty cue of the input with `raise_end` applied.
proof fn lemma_prepared_origin(s: Seq<CueModel>)
    ensures
        forall|k: int|
            0 <= k < prepared(s).len() ==> exists|j: int|
                0 <= j < s.len() && !text_is_empty(s[j].text) && #[trigger] prepared(s)[k]
                    == raise_end(s[j]),
    decreases s.len(),
{
    if s.len() > 0 {
        let init = s.drop_last();
        lemma_prepared_origin(init);
        let q = prepared(init);
        let r = prepared(s);
        assert forall|k: int| 0 <= k < r.len() implies exists|j: int|
            0 <= j < s.len() && !text_is_empty(s[j].text) && #[trigger] r[k] == raise_end(
                s[j],
            ) by {
            if k < q.len() {
                assert(r[k] == q[k]);
                let j = choose|j: int|
                    0 <= j < init.len() && !text_is_empty(init[j].text) && q[k] == raise_end(
                        init[j],
                    );
                assert(s[j] == init[j]);
            } else {
                assert(r[k] == raise_end(s[s.len() - 1]));
            }
        }
    }
}

/// `r` is what `fix` may make of the input cue `c`: `c` has a body, and `r`
/// keeps its start and body, ends no earlier than it starts, and ends no later
/// than `c` ended (or than `c` started, when `c` ended before it started).
pub open spec fn kept_from(r: CueModel, c: CueModel) -> bool {
    &&& !text_is_empty(c.text)
    &&& r.start == c.start
    &&& r.text == c.text
    &&& r.start <= r.end
    &&& r.end <= (if c.end < c.start {
        c.start
    } else {
        c.end
    })
}

/// Every cue that `fix` returns comes from a non-empty input cue: it has that
/// cue's start time and body, and only its end may differ (raised to the start
/// when the cue ended before it started, lowered to the next cue's start when
/// they overlap).
pub proof fn lemma_fix_keeps_starts(s: Seq<CueModel>)
    ensures
        forall|i: int|
            0 <= i < fixed(s).len() ==> exists|j: int|
                0 <= j < s.len() && kept_from(#[trigger] fixed(s)[i], s[j]),
{
    broadcast use vstd::seq_lib::group_to_multiset_ensures;

    let p = prepared(s);
    let q = sort_by_start(p);
    let r = fixed(s);
    lemma_fix_is_clean(s);
    lemma_prepared_origin(s);
    lemma_stable_sort_exists(p);
    lemma_stable_sort_permutes(p, q);
    assert forall|i: int| 0 <= i < r.len() implies exists|j: int|
        0 <= j < s.len() && kept_from(#[trigger] r[i], s[j]) by {
        assert(q.contains(q[i]));
        assert(q.to_multiset().count(q[i]) > 0);
        assert(p.contains(q[i]));
        let k = choose|k: int| 0 <= k < p.len() && p[k] == q[i];
        assert(p[k] == q[i]);
        let j = choose|j: int| 0 <= j < s.len() && !text_is_empty(s[j].text) && p[k] == raise_end(s[j]);
        assert(r[i].start == q[i].start && r[i].text == q[i].text && r[i].end <= q[i].end);
        assert(kept_from(r[i], s[j]));
    }
}

/// Fixing a single cue drops it when it has no body, and otherwise numbers it
/// 1, keeps its start and body, and raises its end to its start when it ended
/// before it started.
pub proof fn lemma_fix_single(c: CueModel)
    ensures
        fixed(seq![c]) == (if text_is_empty(c.text) {
            Seq::<CueModel>::empty()
        } else {
            seq![
                CueModel {
                    index: 1,
                    start: c.start,
                    end: if c.end < c.start {
                        c.start
                    } else {
                        c.end
                    },
                    text: c.text,
                },
            ]
        }),
{
    let s = seq![c];
    assert(s.drop_last() =~= Seq::<CueModel>::empty());
    assert(prepared(Seq::<CueModel>::empty()) =~= Seq::<CueModel>::empty());
    let p = prepared(s);
    assert(stable_sort_of(p, p));
    lemma_stable_sort_unique(p, p);
    assert(fixed(s) =~= (if text_is_empty(c.text) {
        Seq::<CueModel>::empty()
    } else {
        seq![
            CueModel {
                index: 1,
                start: c.start,
                end: if c.end < c.start {
                    c.start
                } else {
                    c.end
                },
                text: c.text,
            },
        ]
    }));
}

} // verus!
