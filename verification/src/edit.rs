//! Renumbering, shifting and merging cue lists.

use vstd::prelude::*;
use crate::cue::{Cue, CueModel, cue_models};
use crate::timestamp::{Timestamp, shifted_ms};

verus! {

/// `cs` with indices rewritten to 1..N.
pub open spec fn renumbered(cs: Seq<CueModel>) -> Seq<CueModel> {
    Seq::new(cs.len(), |i: int| CueModel { index: (i + 1) as nat, ..cs[i] })
}

/// Rewrite `index` fields to 1..N in current order.
pub fn renumber(cues: &mut [Cue])
    ensures
        cue_models(final(cues)@) == renumbered(cue_models(old(cues)@)),
{
    let n = cues.len();
    let mut i: usize = 0;
    while i < n
        invariant
            i <= n == cues@.len() == old(cues)@.len(),
            forall|k: int|
                0 <= k < i ==> #[trigger] cues@[k]@ == (CueModel {
                    index: (k + 1) as nat,
                    ..old(cues)@[k]@
                }),
            forall|k: int| i <= k < n ==> #[trigger] cues@[k] == old(cues)@[k],
        decreases n - i,
    {
        cues[i].index = i + 1;
        i += 1;
    }
    assert(cue_models(cues@) =~= renumbered(cue_models(old(cues)@)));
}

/// Whether a shift restricted to cues starting at or after `from` moves `c`.
pub open spec fn shift_applies(c: CueModel, from: Option<Timestamp>) -> bool {
    match from {
        None => true,
        Some(t) => c.start >= t.ms,
    }
}

/// `c` with start and end moved by `delta`, saturating at zero.
pub open spec fn moved(c: CueModel, delta: int) -> CueModel {
    CueModel { start: shifted_ms(c.start, delta), end: shifted_ms(c.end, delta), ..c }
}

pub open spec fn shifted_cue(c: CueModel, delta: int, from: Option<Timestamp>) -> CueModel {
    if shift_applies(c, from) {
        moved(c, delta)
    } else {
        c
    }
}

/// Whether moving `c` by `delta` stays within `i64` before saturating.
pub open spec fn move_fits(c: CueModel, delta: int) -> bool {
    &&& i64::MIN <= c.start + delta <= i64::MAX
    &&& i64::MIN <= c.end + delta <= i64::MAX
}

pub open spec fn shift_fits(cs: Seq<CueModel>, delta: int, from: Option<Timestamp>) -> bool {
    forall|i: int| 0 <= i < cs.len() && shift_applies(cs[i], from) ==> move_fits(#[trigger] cs[i], delta)
}

/// Shift every cue (start and end) by `delta_ms`. If `from` is given, only cues
/// whose start is at/after `from` are moved. Times saturate at zero.
pub fn shift(cues: &mut [Cue], delta_ms: i64, from: Option<Timestamp>)
    requires
        shift_fits(cue_models(old(cues)@), delta_ms as int, from),
    ensures
        cue_models(final(cues)@) == Seq::new(
            old(cues)@.len(),
            |i: int| shifted_cue(old(cues)@[i]@, delta_ms as int, from),
        ),
{
    let n = cues.len();
    let mut i: usize = 0;
    while i < n
        invariant
            i <= n == cues@.len() == old(cues)@.len(),
            shift_fits(cue_models(old(cues)@), delta_ms as int, from),
            forall|k: int|
                0 <= k < i ==> #[trigger] cues@[k]@ == shifted_cue(
                    old(cues)@[k]@,
                    delta_ms as int,
                    from,
                ),
            forall|k: int| i <= k < n ==> #[trigger] cues@[k] == old(cues)@[k],
        decreases n - i,
    {
        let applies = match from {
            Some(threshold) => cues[i].start.ms >= threshold.ms,
            None => true,
        };
        if applies {
            assert(cue_models(old(cues)@)[i as int] == old(cues)@[i as int]@);
            let s = cues[i].start.shifted(delta_ms);
            let e = cues[i].end.shifted(delta_ms);
            cues[i].start = s;
            cues[i].end = e;
        }
        i += 1;
    }
    assert(cue_models(cues@) =~= Seq::new(
        old(cues)@.len(),
        |i: int| shifted_cue(old(cues)@[i]@, delta_ms as int, from),
    ));
}

/// `c` moved by `delta` when `delta` is not zero (a zero offset leaves even
/// negative times as they are).
pub open spec fn offset_cue(c: CueModel, delta: int) -> CueModel {
    if delta == 0 {
        c
    } else {
        moved(c, delta)
    }
}

/// The lists concatenated, list `k` (0-based) moved by `k * offset`.
pub open spec fn concat_offset(lists: Seq<Seq<CueModel>>, offset: int) -> Seq<CueModel>
    decreases lists.len(),
{
    if lists.len() == 0 {
        Seq::empty()
    } else {
        let k = lists.len() - 1;
        concat_offset(lists.drop_last(), offset) + lists.last().map_values(
            |c: CueModel| offset_cue(c, offset * k),
        )
    }
}

pub open spec fn list_models(lists: Seq<Vec<Cue>>) -> Seq<Seq<CueModel>> {
    Seq::new(lists.len(), |k: int| cue_models(lists[k]@))
}

/// Whether list position `k` and the offset `k * offset` fit in an `i64`.
pub open spec fn offset_fits(offset: int, k: int) -> bool {
    k <= i64::MAX && i64::MIN <= offset * k <= i64::MAX
}

/// Whether every offset `k * offset`, and every move by it, stays within `i64`.
/// (A list position `k` past `i64::MAX` cannot occur in memory.)
pub open spec fn merge_fits(lists: Seq<Seq<CueModel>>, offset: int) -> bool {
    &&& forall|k: int| 0 <= k < lists.len() ==> #[trigger] offset_fits(offset, k)
    &&& forall|k: int, j: int|
        0 <= k < lists.len() && 0 <= j < lists[k].len() && offset * k != 0 ==> move_fits(
            #[trigger] lists[k][j],
            offset * k,
        )
}

/// Concatenate multiple cue lists into one, renumbering 1..N. The k-th list
/// (0-based) is shifted by `k * offset_ms` when that is not zero; cue times
/// are otherwise preserved.
pub fn merge(lists: &[Vec<Cue>], offset_ms: i64) -> (r: Vec<Cue>)
    requires
        merge_fits(list_models(lists@), offset_ms as int),
    ensures
        cue_models(r@) == renumbered(concat_offset(list_models(lists@), offset_ms as int)),
{
    let ghost ls = list_models(lists@);
    let mut out: Vec<Cue> = Vec::new();
    let nl = lists.len();
    let mut k: usize = 0;
    assert(ls.take(0) =~= Seq::<Seq<CueModel>>::empty());
    while k < nl
        invariant
            k <= nl == lists@.len() == ls.len(),
            ls == list_models(lists@),
            merge_fits(ls, offset_ms as int),
            cue_models(out@) == concat_offset(ls.take(k as int), offset_ms as int),
        decreases nl - k,
    {
        assert(offset_fits(offset_ms as int, k as int));
        let delta: i64 = if offset_ms == 0 {
            assert(offset_ms * k == 0) by (nonlinear_arith)
                requires
                    offset_ms == 0,
            ;
            0
        } else {
            offset_ms * (k as i64)
        };
        let list = &lists[k];
        let ghost cur = ls[k as int];
        assert(cur == cue_models(list@));
        let ghost before = cue_models(out@);
        let m = list.len();
        let mut j: usize = 0;
        while j < m
            invariant
                j <= m == list@.len() == cur.len(),
                cur == cue_models(list@),
                ls == list_models(lists@),
                merge_fits(ls, offset_ms as int),
                k < ls.len(),
                cur == ls[k as int],
                delta == offset_ms * k,
                cue_models(out@) == before + cur.take(j as int).map_values(
                    |c: CueModel| offset_cue(c, offset_ms * k),
                ),
            decreases m - j,
        {
            let mut c = list[j].duplicate();
            if delta != 0 {
                assert(move_fits(ls[k as int][j as int], offset_ms * k));
                assert(cur[j as int] == list@[j as int]@);
                c.start = c.start.shifted(delta);
                c.end = c.end.shifted(delta);
            }
            let ghost prev = cue_models(out@);
            out.push(c);
            assert(cue_models(out@) =~= prev.push(c@));
            assert(cur.take(j + 1).map_values(|c: CueModel| offset_cue(c, offset_ms * k))
                =~= cur.take(j as int).map_values(|c: CueModel| offset_cue(c, offset_ms * k)).push(
                offset_cue(cur[j as int], offset_ms * k),
            ));
            assert(cue_models(out@) =~= before + cur.take(j + 1).map_values(
                |c: CueModel| offset_cue(c, offset_ms * k),
            ));
            j += 1;
        }
        assert(cur.take(m as int) =~= cur);
        let ghost next = ls.take(k + 1);
        assert(next.drop_last() =~= ls.take(k as int));
        assert(next.last() == cur);
        k += 1;
    }
    assert(ls.take(nl as int) =~= ls);
    renumber(out.as_mut_slice());
    out
}

} // verus!
