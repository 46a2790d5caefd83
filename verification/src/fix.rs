//! Cleaning up a cue list: dropping empty cues, ordering by time, removing
//! overlaps and renumbering.

use vstd::prelude::*;
use vstd::seq_lib::lemma_seq_contains_after_push;
use crate::cue::{Cue, CueModel, cue_models, text_is_empty};
use crate::edit::{renumber, renumbered};

verus! {

/// `c` with its end raised to its start when it ended before it.
pub open spec fn raise_end(c: CueModel) -> CueModel {
    if c.end < c.start {
        CueModel { end: c.start, ..c }
    } else {
        c
    }
}

/// The non-empty cues of `s`, in order, each with `raise_end` applied.
pub open spec fn prepared(s: Seq<CueModel>) -> Seq<CueModel>
    decreases s.len(),
{
    if s.len() == 0 {
        Seq::empty()
    } else if text_is_empty(s.last().text) {
        prepared(s.drop_last())
    } else {
        prepared(s.drop_last()).push(raise_end(s.last()))
    }
}

/// The cues of `s` that start at `t`, in their order in `s`.
pub open spec fn starting_at(s: Seq<CueModel>, t: int) -> Seq<CueModel>
    decreases s.len(),
{
    if s.len() == 0 {
        Seq::empty()
    } else if s.last().start == t {
        starting_at(s.drop_last(), t).push(s.last())
    } else {
        starting_at(s.drop_last(), t)
    }
}

/// Cues in order of start time.
pub open spec fn sorted_by_start(s: Seq<CueModel>) -> bool {
    forall|i: int, j: int| 0 <= i < j < s.len() ==> (#[trigger] s[i]).start <= (#[trigger] s[j]).start
}

/// `r` is `s` sorted stably by start time: it is in order of start time and,
/// for every start time, holds exactly the cues of `s` with that start, in
/// the order they have in `s`.
pub open spec fn stable_sort_of(s: Seq<CueModel>, r: Seq<CueModel>) -> bool {
    &&& sorted_by_start(r)
    &&& forall|t: int| #[trigger] starting_at(r, t) == starting_at(s, t)
}

/// The stable sort of `s` by start time (there is exactly one, see
/// `lemma_stable_sort_unique`).
pub open spec fn sort_by_start(s: Seq<CueModel>) -> Seq<CueModel> {
    choose|r: Seq<CueModel>| stable_sort_of(s, r)
}

/// Each cue's end lowered to the next cue's start when it runs past it.
pub open spec fn clamp_overlaps(s: Seq<CueModel>) -> Seq<CueModel> {
    Seq::new(
        s.len(),
        |i: int|
            if i + 1 < s.len() && s[i].end > s[i + 1].start {
                CueModel { end: s[i + 1].start, ..s[i] }
            } else {
                s[i]
            },
    )
}

/// What `fix` makes of a list of cues.
pub open spec fn fixed(s: Seq<CueModel>) -> Seq<CueModel> {
    renumbered(clamp_overlaps(sort_by_start(prepared(s))))
}

/// Picking the cues with a given start commutes with concatenation.
proof fn lemma_starting_at_concat(a: Seq<CueModel>, b: Seq<CueModel>, t: int)
    ensures
        starting_at(a + b, t) == starting_at(a, t) + starting_at(b, t),
    decreases b.len(),
{
    if b.len() == 0 {
        assert(a + b =~= a);
        assert(starting_at(a, t) + starting_at(b, t) =~= starting_at(a, t));
    } else {
        lemma_starting_at_concat(a, b.drop_last(), t);
        assert((a + b).drop_last() =~= a + b.drop_last());
        assert((a + b).last() == b.last());
        if b.last().start == t {
            assert(starting_at(a, t) + starting_at(b, t) =~= (starting_at(a, t) + starting_at(
                b.drop_last(),
                t,
            )).push(b.last()));
        }
    }
}

/// The cues picked for start `t` are the cues of `s` that start at `t`.
proof fn lemma_starting_at_members(s: Seq<CueModel>, t: int)
    ensures
        forall|x: CueModel| #[trigger]
            starting_at(s, t).contains(x) <==> (s.contains(x) && x.start == t),
    decreases s.len(),
{
    if s.len() > 0 {
        let init = s.drop_last();
        let l = s.last();
        let q = starting_at(init, t);
        lemma_starting_at_members(init, t);
        assert(init.push(l) =~= s);
        assert forall|x: CueModel| #[trigger]
            starting_at(s, t).contains(x) <==> (s.contains(x) && x.start == t) by {
            lemma_seq_contains_after_push(init, l, x);
            lemma_seq_contains_after_push(q, l, x);
            assert(q.contains(x) <==> (init.contains(x) && x.start == t));
        }
    }
}

/// The cues of a single cue that start at `t`.
proof fn lemma_starting_at_single(c: CueModel, t: int)
    ensures
        starting_at(seq![c], t) == (if c.start == t {
            seq![c]
        } else {
            Seq::<CueModel>::empty()
        }),
{
    let one = seq![c];
    assert(one.drop_last() =~= Seq::<CueModel>::empty());
    assert(starting_at(Seq::<CueModel>::empty(), t) =~= Seq::<CueModel>::empty());
    if c.start == t {
        assert(starting_at(Seq::<CueModel>::empty(), t).push(c) =~= one);
    }
}

/// Inserting `c` into a stable sort of `p`, after every cue that starts no
/// later than it and before every cue that starts later, gives a stable sort
/// of `p` followed by `c`.
proof fn lemma_insert_stable(p: Seq<CueModel>, r: Seq<CueModel>, c: CueModel, k: int)
    requires
        stable_sort_of(p, r),
        0 <= k <= r.len(),
        forall|j: int| 0 <= j < k ==> (#[trigger] r[j]).start <= c.start,
        forall|j: int| k <= j < r.len() ==> (#[trigger] r[j]).start > c.start,
    ensures
        stable_sort_of(p.push(c), r.insert(k, c)),
{
    let q = r.insert(k, c);
    let lo = r.take(k);
    let hi = r.skip(k);
    let one = seq![c];
    assert(q =~= lo + one + hi);
    assert(r =~= lo + hi);
    assert forall|i: int, j: int| 0 <= i < j < q.len() implies (#[trigger] q[i]).start <= (
    #[trigger] q[j]).start by {
        if j < k {
            assert(q[i] == r[i] && q[j] == r[j]);
        } else if j == k {
            assert(q[i] == r[i]);
        } else if i < k {
            assert(q[i] == r[i] && q[j] == r[j - 1]);
        } else if i == k {
            assert(q[j] == r[j - 1]);
        } else {
            assert(q[i] == r[i - 1] && q[j] == r[j - 1]);
        }
    }
    assert forall|t: int| #[trigger] starting_at(q, t) == starting_at(p.push(c), t) by {
        let sl = starting_at(lo, t);
        let so = starting_at(one, t);
        let sh = starting_at(hi, t);
        lemma_starting_at_concat(lo + one, hi, t);
        lemma_starting_at_concat(lo, one, t);
        lemma_starting_at_concat(lo, hi, t);
        assert(starting_at(q, t) == sl + so + sh);
        assert(starting_at(p, t) == sl + sh);
        assert(p.push(c).drop_last() =~= p);
        lemma_starting_at_single(c, t);
        if t == c.start {
            lemma_starting_at_members(hi, t);
            if sh.len() > 0 {
                let x = sh[0];
                assert(sh.contains(x));
                let m = choose|m: int| 0 <= m < hi.len() && hi[m] == x;
                assert(hi[m] == r[k + m]);
            }
            assert(sh =~= Seq::<CueModel>::empty());
            assert(so =~= seq![c]);
            assert(starting_at(p.push(c), t) == starting_at(p, t).push(c));
            assert(sl + so + sh =~= (sl + sh).push(c));
        } else {
            assert(so =~= Seq::<CueModel>::empty());
            assert(starting_at(p.push(c), t) == starting_at(p, t));
            assert(sl + so + sh =~= sl + sh);
        }
    }
}

/// The position after every leading cue of `s` that starts no later than `c`.
pub open spec fn insert_pos(s: Seq<CueModel>, c: CueModel) -> nat
    decreases s.len(),
{
    if s.len() == 0 {
        0
    } else if s[0].start > c.start {
        0
    } else {
        1 + insert_pos(s.drop_first(), c)
    }
}

/// In cues sorted by start, `insert_pos` lands after every cue that starts
/// no later than `c` and before every cue that starts later.
proof fn lemma_insert_pos_splits(s: Seq<CueModel>, c: CueModel)
    requires
        sorted_by_start(s),
    ensures
        insert_pos(s, c) <= s.len(),
        forall|j: int| 0 <= j < insert_pos(s, c) ==> (#[trigger] s[j]).start <= c.start,
        forall|j: int| insert_pos(s, c) <= j < s.len() ==> (#[trigger] s[j]).start > c.start,
    decreases s.len(),
{
    if s.len() > 0 {
        let t = s.drop_first();
        assert(sorted_by_start(t)) by {
            assert forall|i: int, j: int| 0 <= i < j < t.len() implies (#[trigger] t[i]).start <= (
            #[trigger] t[j]).start by {
                assert(t[i] == s[i + 1] && t[j] == s[j + 1]);
            }
        }
        lemma_insert_pos_splits(t, c);
        if s[0].start <= c.start {
            assert forall|j: int| 0 <= j < insert_pos(s, c) implies (#[trigger] s[j]).start
                <= c.start by {
                if j > 0 {
                    assert(s[j] == t[j - 1]);
                }
            }
            assert forall|j: int| insert_pos(s, c) <= j < s.len() implies (#[trigger] s[j]).start
                > c.start by {
                assert(s[j] == t[j - 1]);
            }
        } else {
            assert forall|j: int| 0 <= j < s.len() implies (#[trigger] s[j]).start > c.start by {
                if j > 0 {
                    assert(s[0].start <= s[j].start);
                }
            }
        }
    }
}

/// Every list of cues has a stable sort by start time.
pub proof fn lemma_stable_sort_exists(s: Seq<CueModel>)
    ensures
        stable_sort_of(s, sort_by_start(s)),
    decreases s.len(),
{
    if s.len() == 0 {
        assert(stable_sort_of(s, s));
    } else {
        let init = s.drop_last();
        let c = s.last();
        lemma_stable_sort_exists(init);
        let r = sort_by_start(init);
        lemma_insert_pos_splits(r, c);
        let k = insert_pos(r, c) as int;
        lemma_insert_stable(init, r, c, k);
        assert(init.push(c) =~= s);
        assert(stable_sort_of(s, r.insert(k, c)));
    }
}

/// Two lists in order of start time that hold the same cues for every start
/// time, in the same order, are equal.
proof fn lemma_sorted_groups_determine(a: Seq<CueModel>, b: Seq<CueModel>)
    requires
        sorted_by_start(a),
        sorted_by_start(b),
        forall|t: int| #[trigger] starting_at(a, t) == starting_at(b, t),
    ensures
        a == b,
    decreases a.len() + b.len(),
{
    if a.len() == 0 && b.len() == 0 {
        assert(a =~= b);
    } else if a.len() == 0 {
        assert(starting_at(b, b.last().start).len() > 0);
        assert(starting_at(a, b.last().start).len() == 0);
    } else if b.len() == 0 {
        assert(starting_at(a, a.last().start).len() > 0);
        assert(starting_at(b, a.last().start).len() == 0);
    } else {
        let ma = a.last().start;
        let mb = b.last().start;
        lemma_starting_at_members(a, mb);
        lemma_starting_at_members(b, ma);
        let xa = starting_at(a, ma).last();
        assert(starting_at(b, ma).contains(xa));
        let kb = choose|k: int| 0 <= k < b.len() && b[k] == xa;
        assert(b[kb].start == ma);
        let xb = starting_at(b, mb).last();
        assert(starting_at(a, mb).contains(xb));
        let ka = choose|k: int| 0 <= k < a.len() && a[k] == xb;
        assert(a[ka].start == mb);
        if kb < b.len() - 1 {
            assert(b[kb].start <= b[b.len() - 1].start);
        }
        if ka < a.len() - 1 {
            assert(a[ka].start <= a[a.len() - 1].start);
        }
        assert(ma == mb);
        assert(a.last() == b.last());
        let a2 = a.drop_last();
        let b2 = b.drop_last();
        assert forall|t: int| #[trigger] starting_at(a2, t) == starting_at(b2, t) by {
            assert(starting_at(a, t) == starting_at(b, t));
            if t == ma {
                assert(starting_at(a2, t) =~= starting_at(a, t).drop_last());
                assert(starting_at(b2, t) =~= starting_at(b, t).drop_last());
            }
        }
        lemma_sorted_groups_determine(a2, b2);
        assert(a =~= a2.push(a.last()));
        assert(b =~= b2.push(b.last()));
    }
}

/// The stable sort by start time is unique: any stable sort of `s` is
/// `sort_by_start(s)`.
pub proof fn lemma_stable_sort_unique(s: Seq<CueModel>, r: Seq<CueModel>)
    requires
        stable_sort_of(s, r),
    ensures
        sort_by_start(s) == r,
{
    lemma_stable_sort_exists(s);
    let q = sort_by_start(s);
    assert forall|t: int| #[trigger] starting_at(q, t) == starting_at(r, t) by {
        assert(starting_at(q, t) == starting_at(s, t));
        assert(starting_at(r, t) == starting_at(s, t));
    }
    lemma_sorted_groups_determine(q, r);
}

/// A cue occurs as often in `s` as among the cues of `s` with its start.
proof fn lemma_count_starting_at(s: Seq<CueModel>, x: CueModel)
    ensures
        s.to_multiset().count(x) == starting_at(s, x.start).to_multiset().count(x),
    decreases s.len(),
{
    broadcast use vstd::seq_lib::group_to_multiset_ensures;

    if s.len() > 0 {
        let init = s.drop_last();
        lemma_count_starting_at(init, x);
        assert(init.push(s.last()) =~= s);
    }
}

/// A stable sort holds the same cues as what it sorts, each as often.
pub proof fn lemma_stable_sort_permutes(s: Seq<CueModel>, r: Seq<CueModel>)
    requires
        stable_sort_of(s, r),
    ensures
        r.to_multiset() == s.to_multiset(),
        r.len() == s.len(),
{
    broadcast use vstd::seq_lib::group_to_multiset_ensures;

    assert forall|x: CueModel| r.to_multiset().count(x) == s.to_multiset().count(x) by {
        lemma_count_starting_at(r, x);
        lemma_count_starting_at(s, x);
        assert(starting_at(r, x.start) == starting_at(s, x.start));
    }
    assert(r.to_multiset() =~= s.to_multiset());
    assert(r.to_multiset().len() == s.to_multiset().len());
}

// ---------------------------------------------------------------------------
// Executable steps
// ---------------------------------------------------------------------------

/// The non-empty cues with raised ends.
fn prepare(cues: &Vec<Cue>) -> (r: Vec<Cue>)
    ensures
        cue_models(r@) == prepared(cue_models(cues@)),
{
    let ghost s = cue_models(cues@);
    let mut out: Vec<Cue> = Vec::new();
    let n = cues.len();
    let mut i: usize = 0;
    assert(s.take(0) =~= Seq::<CueModel>::empty());
    while i < n
        invariant
            i <= n == cues@.len() == s.len(),
            s == cue_models(cues@),
            cue_models(out@) == prepared(s.take(i as int)),
        decreases n - i,
    {
        let ghost prefix = s.take(i + 1);
        assert(prefix.drop_last() =~= s.take(i as int));
        assert(prefix.last() == cues@[i as int]@);
        if !cues[i].is_empty() {
            let mut c = cues[i].duplicate();
            if c.end.ms < c.start.ms {
                c.end = c.start;
            }
            let ghost before = cue_models(out@);
            out.push(c);
            assert(cue_models(out@) =~= before.push(c@));
        }
        i += 1;
    }
    assert(s.take(n as int) =~= s);
    out
}

/// Stable insertion sort by start time: each cue goes after every cue before
/// it that starts no later.
fn sort_cues(cues: &Vec<Cue>) -> (r: Vec<Cue>)
    ensures
        cue_models(r@) == sort_by_start(cue_models(cues@)),
{
    let ghost s = cue_models(cues@);
    let mut out: Vec<Cue> = Vec::new();
    let n = cues.len();
    let mut i: usize = 0;
    assert(s.take(0) =~= Seq::<CueModel>::empty());
    assert(stable_sort_of(s.take(0), cue_models(out@)));
    while i < n
        invariant
            i <= n == cues@.len() == s.len(),
            s == cue_models(cues@),
            stable_sort_of(s.take(i as int), cue_models(out@)),
        decreases n - i,
    {
        let c = cues[i].duplicate();
        let ghost r = cue_models(out@);
        let m = out.len();
        let mut j: usize = 0;
        while j < m && out[j].start.ms <= c.start.ms
            invariant
                j <= m == out.len() == r.len(),
                r == cue_models(out@),
                forall|k: int| 0 <= k < j ==> (#[trigger] r[k]).start <= c@.start,
            decreases m - j,
        {
            j += 1;
        }
        proof {
            assert forall|k: int| j <= k < r.len() implies (#[trigger] r[k]).start > c@.start by {
                assert(r[j as int].start <= r[k].start);
            }
            lemma_insert_stable(s.take(i as int), r, c@, j as int);
            assert(s.take(i + 1) =~= s.take(i as int).push(c@));
        }
        out.insert(j, c);
        assert(cue_models(out@) =~= r.insert(j as int, c@));
        i += 1;
    }
    assert(s.take(n as int) =~= s);
    proof {
        lemma_stable_sort_unique(s, cue_models(out@));
    }
    out
}

/// Lowers each end that runs past the next cue's start.
fn clamp(cues: &mut Vec<Cue>)
    ensures
        cue_models(final(cues)@) == clamp_overlaps(cue_models(old(cues)@)),
{
    let ghost s = cue_models(old(cues)@);
    let n = cues.len();
    let mut i: usize = 0;
    while i + 1 < n
        invariant
            n == cues@.len() == s.len(),
            s == cue_models(old(cues)@),
            i < n || (n == 0 && i == 0),
            forall|k: int| 0 <= k < i ==> #[trigger] cues@[k]@ == clamp_overlaps(s)[k],
            forall|k: int| i <= k < n ==> #[trigger] cues@[k]@ == s[k],
        decreases n - i,
    {
        let next_start = cues[i + 1].start;
        assert(cues@[i + 1]@ == s[i + 1]);
        assert(cues@[i as int]@ == s[i as int]);
        if cues[i].end.ms > next_start.ms {
            cues[i].end = next_start;
        }
        assert(cues@[i as int]@ == clamp_overlaps(s)[i as int]);
        i += 1;
    }
    assert(cue_models(cues@) =~= clamp_overlaps(s));
}

/// Clean up a cue list:
///   * drop empty cues,
///   * ensure end >= start for every cue,
///   * sort by start time, keeping cues with equal starts in input order,
///   * clamp overlaps so each cue's end is at most the next cue's start,
///   * renumber 1..N.
///
/// Returns the cleaned list (the input is consumed).
pub fn fix(cues: Vec<Cue>) -> (r: Vec<Cue>)
    ensures
        cue_models(r@) == fixed(cue_models(cues@)),
{
    let kept = prepare(&cues);
    let mut sorted = sort_cues(&kept);
    clamp(&mut sorted);
    renumber(sorted.as_mut_slice());
    sorted
}

} // verus!
