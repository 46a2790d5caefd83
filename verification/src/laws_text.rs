//! Facts about the text model: splitting, joining, trimming and normalizing.

use vstd::prelude::*;
use crate::text::{
    crlf_to_lf, is_ws, join_lines, lemma_split_nonempty, normalize, split_acc, split_on, trim,
    trim_start,
};

verus! {

pub open spec fn has_no(s: Seq<char>, c: char) -> bool {
    forall|i: int| 0 <= i < s.len() ==> s[i] != c
}

proof fn lemma_split_acc_concat(x: Seq<char>, sep: char, cur: Seq<char>, y: Seq<char>)
    ensures
        split_acc(x + seq![sep] + y, sep, cur) == split_acc(x, sep, cur) + split_acc(
            y,
            sep,
            Seq::empty(),
        ),
    decreases x.len(),
{
    let s = x + seq![sep] + y;
    if x.len() == 0 {
        assert(s.drop_first() =~= y);
        assert(s[0] == sep);
    } else {
        assert(s[0] == x[0]);
        assert(s.drop_first() =~= x.drop_first() + seq![sep] + y);
        if x[0] == sep {
            lemma_split_acc_concat(x.drop_first(), sep, Seq::empty(), y);
            assert(split_acc(s, sep, cur) =~= split_acc(x, sep, cur) + split_acc(
                y,
                sep,
                Seq::empty(),
            ));
        } else {
            lemma_split_acc_concat(x.drop_first(), sep, cur.push(x[0]), y);
        }
    }
}

/// Splitting at a separator splits the pieces on either side.
pub proof fn lemma_split_concat(x: Seq<char>, sep: char, y: Seq<char>)
    ensures
        split_on(x + seq![sep] + y, sep) == split_on(x, sep) + split_on(y, sep),
{
    lemma_split_acc_concat(x, sep, Seq::empty(), y);
}

proof fn lemma_split_acc_single(x: Seq<char>, sep: char, cur: Seq<char>)
    requires
        has_no(x, sep),
    ensures
        split_acc(x, sep, cur) == seq![cur + x],
    decreases x.len(),
{
    if x.len() == 0 {
        assert(cur + x =~= cur);
    } else {
        assert(x.drop_first().len() < x.len());
        assert(has_no(x.drop_first(), sep)) by {
            assert forall|i: int| 0 <= i < x.drop_first().len() implies x.drop_first()[i] != sep by {
                assert(x.drop_first()[i] == x[i + 1]);
            }
        }
        lemma_split_acc_single(x.drop_first(), sep, cur.push(x[0]));
        assert(cur.push(x[0]) + x.drop_first() =~= cur + x);
    }
}

/// Without a separator there is a single piece.
pub proof fn lemma_split_single(x: Seq<char>, sep: char)
    requires
        has_no(x, sep),
    ensures
        split_on(x, sep) == seq![x],
{
    lemma_split_acc_single(x, sep, Seq::empty());
    assert(Seq::<char>::empty() + x =~= x);
}

proof fn lemma_split_acc_pieces(s: Seq<char>, sep: char, cur: Seq<char>)
    requires
        has_no(cur, sep),
    ensures
        forall|k: int|
            0 <= k < split_acc(s, sep, cur).len() ==> has_no(#[trigger] split_acc(s, sep, cur)[k], sep),
    decreases s.len(),
{
    if s.len() == 0 {
        assert(split_acc(s, sep, cur) == seq![cur]);
        assert(split_acc(s, sep, cur)[0] == cur);
    } else {
        if s[0] == sep {
            lemma_split_acc_pieces(s.drop_first(), sep, Seq::empty());
            let r = split_acc(s.drop_first(), sep, Seq::empty());
            assert forall|k: int| 0 <= k < split_acc(s, sep, cur).len() implies has_no(
                #[trigger] split_acc(s, sep, cur)[k],
                sep,
            ) by {
                if k > 0 {
                    assert(split_acc(s, sep, cur)[k] == r[k - 1]);
                } else {
                    assert(split_acc(s, sep, cur)[k] == cur);
                }
            }
        } else {
            assert(has_no(cur.push(s[0]), sep)) by {
                assert forall|i: int| 0 <= i < cur.push(s[0]).len() implies cur.push(s[0])[i] != sep by {
                    if i < cur.len() {
                        assert(cur.push(s[0])[i] == cur[i]);
                    }
                }
            }
            lemma_split_acc_pieces(s.drop_first(), sep, cur.push(s[0]));
            assert(split_acc(s, sep, cur) == split_acc(s.drop_first(), sep, cur.push(s[0])));
        }
    }
}

/// No piece of a split holds the separator.
pub proof fn lemma_split_pieces(s: Seq<char>, sep: char)
    ensures
        forall|k: int| 0 <= k < split_on(s, sep).len() ==> has_no(#[trigger] split_on(s, sep)[k], sep),
{
    lemma_split_acc_pieces(s, sep, Seq::empty());
}

proof fn lemma_split_acc_keeps_no(s: Seq<char>, sep: char, cur: Seq<char>, ch: char)
    requires
        has_no(s, ch),
        has_no(cur, ch),
    ensures
        forall|k: int|
            0 <= k < split_acc(s, sep, cur).len() ==> has_no(#[trigger] split_acc(s, sep, cur)[k], ch),
    decreases s.len(),
{
    let r = split_acc(s, sep, cur);
    if s.len() == 0 {
        assert(r == seq![cur]);
        assert(r[0] == cur);
    } else {
        let t = s.drop_first();
        assert(has_no(t, ch)) by {
            assert forall|i: int| 0 <= i < t.len() implies t[i] != ch by {
                assert(t[i] == s[i + 1]);
            }
        }
        if s[0] == sep {
            lemma_split_acc_keeps_no(t, sep, Seq::empty(), ch);
            let q = split_acc(t, sep, Seq::empty());
            assert forall|k: int| 0 <= k < r.len() implies has_no(#[trigger] r[k], ch) by {
                if k > 0 {
                    assert(r[k] == q[k - 1]);
                } else {
                    assert(r[k] == cur);
                }
            }
        } else {
            assert(has_no(cur.push(s[0]), ch)) by {
                assert forall|i: int| 0 <= i < cur.push(s[0]).len() implies cur.push(s[0])[i]
                    != ch by {
                    if i < cur.len() {
                        assert(cur.push(s[0])[i] == cur[i]);
                    }
                }
            }
            lemma_split_acc_keeps_no(t, sep, cur.push(s[0]), ch);
            assert(r == split_acc(t, sep, cur.push(s[0])));
        }
    }
}

/// No piece of a split holds a character that the text does not hold.
pub proof fn lemma_split_keeps_no(s: Seq<char>, sep: char, ch: char)
    requires
        has_no(s, ch),
    ensures
        forall|k: int| 0 <= k < split_on(s, sep).len() ==> has_no(#[trigger] split_on(s, sep)[k], ch),
{
    lemma_split_acc_keeps_no(s, sep, Seq::empty(), ch);
}

/// Joining the pieces of a split on `\n` gives the text back.
pub proof fn lemma_join_split(t: Seq<char>)
    ensures
        join_lines(split_on(t, '\n')) == t,
    decreases t.len(),
{
    if has_no(t, '\n') {
        lemma_split_single(t, '\n');
    } else {
        // Split at the last newline.
        let k = choose|k: int| 0 <= k < t.len() && t[k] == '\n' && has_no(t.skip(k + 1), '\n');
        assert(exists|k: int| 0 <= k < t.len() && t[k] == '\n' && has_no(t.skip(k + 1), '\n')) by {
            lemma_last_newline(t);
        }
        let x = t.take(k);
        let y = t.skip(k + 1);
        assert(t =~= x + seq!['\n'] + y);
        lemma_split_concat(x, '\n', y);
        lemma_split_single(y, '\n');
        lemma_split_nonempty(x, '\n', Seq::empty());
        lemma_join_split(x);
        let p = split_on(x, '\n') + seq![y];
        assert(p.drop_last() =~= split_on(x, '\n'));
    }
}

proof fn lemma_last_newline(t: Seq<char>)
    requires
        !has_no(t, '\n'),
    ensures
        exists|k: int| 0 <= k < t.len() && t[k] == '\n' && has_no(t.skip(k + 1), '\n'),
    decreases t.len(),
{
    if t.last() == '\n' {
        assert(has_no(t.skip(t.len() as int), '\n'));
    } else {
        let u = t.drop_last();
        assert(!has_no(u, '\n')) by {
            let i = choose|i: int| 0 <= i < t.len() && t[i] == '\n';
            assert(u[i] == t[i]);
        }
        lemma_last_newline(u);
        let k = choose|k: int| 0 <= k < u.len() && u[k] == '\n' && has_no(u.skip(k + 1), '\n');
        assert(t[k] == '\n');
        let w = t.skip(k + 1);
        assert forall|i: int| 0 <= i < w.len() implies #[trigger] w[i] != '\n' by {
            if k + 1 + i < u.len() {
                assert(t.skip(k + 1)[i] == u.skip(k + 1)[i]);
            }
        }
    }
}

/// Splitting lines joined with `\n` gives the lines back, when none holds `\n`.
pub proof fn lemma_split_join(ls: Seq<Seq<char>>)
    requires
        ls.len() > 0,
        forall|k: int| 0 <= k < ls.len() ==> has_no(#[trigger] ls[k], '\n'),
    ensures
        split_on(join_lines(ls), '\n') == ls,
    decreases ls.len(),
{
    if ls.len() == 1 {
        lemma_split_single(ls[0], '\n');
        assert(seq![ls[0]] =~= ls);
    } else {
        let init = ls.drop_last();
        assert forall|k: int| 0 <= k < init.len() implies has_no(#[trigger] init[k], '\n') by {
            assert(init[k] == ls[k]);
        }
        lemma_split_join(init);
        lemma_split_concat(join_lines(init), '\n', ls.last());
        lemma_split_single(ls.last(), '\n');
        assert(init + seq![ls.last()] =~= ls);
    }
}

/// Without a carriage return, line-ending normalization changes nothing.
pub proof fn lemma_crlf_identity(s: Seq<char>)
    requires
        has_no(s, '\r'),
    ensures
        crlf_to_lf(s) == s,
    decreases s.len(),
{
    if s.len() > 0 {
        assert(has_no(s.skip(1), '\r')) by {
            assert forall|i: int| 0 <= i < s.skip(1).len() implies s.skip(1)[i] != '\r' by {
                assert(s.skip(1)[i] == s[i + 1]);
            }
        }
        lemma_crlf_identity(s.skip(1));
        assert(seq![s[0]] + s.skip(1) =~= s);
    }
}

/// Normalized text holds no carriage return.
pub proof fn lemma_crlf_no_cr(s: Seq<char>)
    ensures
        has_no(crlf_to_lf(s), '\r'),
    decreases s.len(),
{
    if s.len() > 0 {
        let r = crlf_to_lf(s);
        if s[0] == '\r' && s.len() > 1 && s[1] == '\n' {
            lemma_crlf_no_cr(s.skip(2));
            assert forall|i: int| 0 <= i < r.len() implies r[i] != '\r' by {
                if i > 0 {
                    assert(r[i] == crlf_to_lf(s.skip(2))[i - 1]);
                }
            }
        } else {
            lemma_crlf_no_cr(s.skip(1));
            assert forall|i: int| 0 <= i < r.len() implies r[i] != '\r' by {
                if i > 0 {
                    assert(r[i] == crlf_to_lf(s.skip(1))[i - 1]);
                }
            }
        }
    }
}

pub proof fn lemma_normalize_identity(s: Seq<char>)
    requires
        has_no(s, '\r'),
        s.len() == 0 || s[0] != '\u{feff}',
    ensures
        normalize(s) == s,
{
    lemma_crlf_identity(s);
}

/// A text whose ends are not whitespace is its own trimmed form.
pub proof fn lemma_trim_identity(s: Seq<char>)
    requires
        s.len() > 0,
        !is_ws(s[0]),
        !is_ws(s.last()),
    ensures
        trim(s) == s,
        trim_start(s) == s,
{
}

} // verus!
