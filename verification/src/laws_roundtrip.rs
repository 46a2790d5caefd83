//! Reading back what the writers write: parsing the SRT or WebVTT text of a
//! list of cues gives the same cues.

use vstd::prelude::*;
use crate::cue::CueModel;
use crate::laws_text::{
    has_no, lemma_join_split, lemma_normalize_identity, lemma_split_concat, lemma_split_single,
};
use crate::laws_time::{lemma_clock_field_bounds, lemma_clock_text_reads_back};
use crate::numeral::{decimal, lemma_decimal, lemma_zero_pad, zero_pad};
use crate::parse::{
    arrow_from, arrow_index, block_end, is_arrow_at, is_block_head, is_header_line, is_timing_line,
    note, note_space, parse_from, parse_model, region, style, timing_end, timing_start, webvtt, ws,
};
use crate::text::{
    all_digits, is_blank, is_digit, is_ws, join_lines, lemma_first_index, lines_of, normalize,
    split_on, trim, trim_end, trim_start,
};
use crate::timestamp::{
    clock_fields, clock_part, clock_text, field_value, fraction_part, millis_value, timestamp_value,
};
use crate::write::{arrow_text, cue_block, cue_blocks, srt_text, vtt_text};

verus! {

// ---------------------------------------------------------------------------
// Which cues can be written and read back
// ---------------------------------------------------------------------------

/// A body that survives writing: no carriage return, and, unless it is empty,
/// no blank line (a blank line ends a cue).
pub open spec fn writable_text(t: Seq<char>) -> bool {
    &&& has_no(t, '\r')
    &&& t.len() == 0 || forall|k: int|
        0 <= k < split_on(t, '\n').len() ==> !is_blank(#[trigger] split_on(t, '\n')[k])
}

/// Cues that parsing their written text gives back: numbered 1..N, times from
/// 0 to `i64::MAX` milliseconds, bodies that survive writing, at least one cue.
pub open spec fn writable(cs: Seq<CueModel>) -> bool {
    &&& cs.len() > 0
    &&& forall|i: int|
        0 <= i < cs.len() ==> {
            &&& (#[trigger] cs[i]).index == i + 1
            &&& 0 <= cs[i].start <= i64::MAX
            &&& 0 <= cs[i].end <= i64::MAX
            &&& writable_text(cs[i].text)
        }
}

// ---------------------------------------------------------------------------
// The lines of written text
// ---------------------------------------------------------------------------

pub open spec fn text_lines(t: Seq<char>) -> Seq<Seq<char>> {
    if t.len() == 0 {
        Seq::empty()
    } else {
        split_on(t, '\n')
    }
}

pub open spec fn timing_text(c: CueModel, sep: char) -> Seq<char> {
    clock_text(c.start, sep) + arrow_text() + clock_text(c.end, sep)
}

/// The lines of one written cue: index, timing, body lines, blank line.
pub open spec fn block_lines(c: CueModel, sep: char) -> Seq<Seq<char>> {
    seq![decimal(c.index), timing_text(c, sep)] + text_lines(c.text) + seq![Seq::<char>::empty()]
}

pub open spec fn all_lines(cs: Seq<CueModel>, sep: char) -> Seq<Seq<char>>
    decreases cs.len(),
{
    if cs.len() == 0 {
        Seq::empty()
    } else {
        block_lines(cs[0], sep) + all_lines(cs.drop_first(), sep)
    }
}

proof fn lemma_all_lines_concat(s: Seq<CueModel>, t: Seq<CueModel>, sep: char)
    ensures
        all_lines(s + t, sep) == all_lines(s, sep) + all_lines(t, sep),
    decreases s.len(),
{
    if s.len() == 0 {
        assert(s + t =~= t);
        assert(all_lines(s, sep) + all_lines(t, sep) =~= all_lines(t, sep));
    } else {
        lemma_all_lines_concat(s.drop_first(), t, sep);
        assert((s + t).drop_first() =~= s.drop_first() + t);
        assert((s + t)[0] == s[0]);
        assert(all_lines(s + t, sep) =~= all_lines(s, sep) + all_lines(t, sep));
    }
}

proof fn lemma_all_lines_single(c: CueModel, sep: char)
    ensures
        all_lines(seq![c], sep) == block_lines(c, sep),
{
    assert(seq![c].drop_first() =~= Seq::<CueModel>::empty());
    assert(seq![c][0] == c);
    assert(all_lines(Seq::<CueModel>::empty(), sep) == Seq::<Seq<char>>::empty());
    assert(block_lines(c, sep) + Seq::<Seq<char>>::empty() =~= block_lines(c, sep));
}

/// The characters that formatted times and numbers are made of.
pub open spec fn is_clock_char(c: char) -> bool {
    is_digit(c) || c == ':' || c == ',' || c == '.'
}

pub open spec fn clock_chars(s: Seq<char>) -> bool {
    forall|i: int| 0 <= i < s.len() ==> is_clock_char(#[trigger] s[i])
}

proof fn lemma_clock_text_chars(ms: int, sep: char)
    requires
        sep == ',' || sep == '.',
    ensures
        clock_chars(clock_text(ms, sep)),
        clock_text(ms, sep).len() > 0,
        is_digit(clock_text(ms, sep)[0]),
        is_digit(clock_text(ms, sep).last()),
{
    let (h, m, s, x) = clock_fields(ms);
    lemma_clock_field_bounds(ms);
    lemma_zero_pad(h, 2);
    lemma_zero_pad(m, 2);
    lemma_zero_pad(s, 2);
    lemma_zero_pad(x, 3);
    let hh = zero_pad(h, 2);
    let mm = zero_pad(m, 2);
    let ss = zero_pad(s, 2);
    let xx = zero_pad(x, 3);
    let c = clock_text(ms, sep);
    assert forall|j: int| 0 <= j < c.len() implies is_clock_char(#[trigger] c[j]) by {
        let k = hh.len() + 6;
        if j < hh.len() {
            assert(c[j] == hh[j]);
        } else if j == hh.len() {
        } else if j < hh.len() + 3 {
            assert(c[j] == mm[j - hh.len() - 1]);
        } else if j == hh.len() + 3 {
        } else if j < hh.len() + 6 {
            assert(c[j] == ss[j - hh.len() - 4]);
        } else if j == k {
        } else {
            assert(c[j] == xx[j - k - 1]);
        }
    }
    assert(c[0] == hh[0]);
    assert(c.last() == xx.last());
}

proof fn lemma_clock_chars_have_no(s: Seq<char>, c: char)
    requires
        clock_chars(s),
        !is_clock_char(c),
    ensures
        has_no(s, c),
{
    assert forall|i: int| 0 <= i < s.len() implies s[i] != c by {
        assert(is_clock_char(s[i]));
    }
}

proof fn lemma_decimal_chars(n: nat)
    ensures
        clock_chars(decimal(n)),
        decimal(n).len() > 0,
        is_digit(decimal(n)[0]),
{
    lemma_decimal(n);
    assert forall|i: int| 0 <= i < decimal(n).len() implies is_clock_char(#[trigger] decimal(n)[i]) by {
        assert(is_digit(decimal(n)[i]));
    }
}

proof fn lemma_timing_text_no_newline(c: CueModel, sep: char)
    requires
        sep == ',' || sep == '.',
    ensures
        has_no(timing_text(c, sep), '\n'),
{
    let a = clock_text(c.start, sep);
    let b = clock_text(c.end, sep);
    lemma_clock_text_chars(c.start, sep);
    lemma_clock_text_chars(c.end, sep);
    let t = timing_text(c, sep);
    assert forall|i: int| 0 <= i < t.len() implies t[i] != '\n' by {
        if i < a.len() {
            assert(t[i] == a[i]);
            assert(is_clock_char(a[i]));
        } else if i < a.len() + 5 {
            assert(t[i] == arrow_text()[i - a.len()]);
        } else {
            assert(t[i] == b[i - a.len() - 5]);
            assert(is_clock_char(b[i - a.len() - 5]));
        }
    }
}

/// The pieces of `d \n tm \n [body \n] \n`.
proof fn lemma_split_block_parts(d: Seq<char>, tm: Seq<char>, body: Seq<char>)
    requires
        has_no(d, '\n'),
        has_no(tm, '\n'),
    ensures
        split_on(
            d + seq!['\n'] + tm + seq!['\n'] + (if body.len() == 0 {
                Seq::empty()
            } else {
                body + seq!['\n']
            }) + seq!['\n'],
            '\n',
        ) == seq![d, tm] + (if body.len() == 0 {
            Seq::empty()
        } else {
            split_on(body, '\n')
        }) + seq![Seq::<char>::empty(), Seq::<char>::empty()],
{
    let e = Seq::<char>::empty();
    lemma_split_single(d, '\n');
    lemma_split_single(tm, '\n');
    lemma_split_single(e, '\n');
    lemma_split_concat(e, '\n', e);
    let tail = e + seq!['\n'] + e;
    let whole = d + seq!['\n'] + tm + seq!['\n'] + (if body.len() == 0 {
        Seq::empty()
    } else {
        body + seq!['\n']
    }) + seq!['\n'];
    if body.len() == 0 {
        assert(whole =~= d + seq!['\n'] + (tm + seq!['\n'] + tail));
        lemma_split_concat(d, '\n', tm + seq!['\n'] + tail);
        lemma_split_concat(tm, '\n', tail);
    } else {
        assert(whole =~= d + seq!['\n'] + (tm + seq!['\n'] + (body + seq!['\n'] + tail)));
        lemma_split_concat(d, '\n', tm + seq!['\n'] + (body + seq!['\n'] + tail));
        lemma_split_concat(tm, '\n', body + seq!['\n'] + tail);
        lemma_split_concat(body, '\n', tail);
    }
}

/// The pieces of one written cue, split at its newlines.
proof fn lemma_split_block(c: CueModel, sep: char)
    requires
        sep == ',' || sep == '.',
    ensures
        split_on(cue_block(c, sep), '\n') == block_lines(c, sep) + seq![Seq::<char>::empty()],
{
    let d = decimal(c.index);
    let tm = timing_text(c, sep);
    lemma_decimal_chars(c.index);
    lemma_clock_chars_have_no(d, '\n');
    lemma_timing_text_no_newline(c, sep);
    lemma_split_block_parts(d, tm, c.text);
    assert(cue_block(c, sep) =~= d + seq!['\n'] + tm + seq!['\n'] + (if c.text.len() == 0 {
        Seq::empty()
    } else {
        c.text + seq!['\n']
    }) + seq!['\n']);
    assert(block_lines(c, sep) + seq![Seq::<char>::empty()] =~= seq![d, tm] + text_lines(c.text)
        + seq![Seq::<char>::empty(), Seq::<char>::empty()]);
}

proof fn lemma_cue_blocks_ends_with_newline(cs: Seq<CueModel>, sep: char)
    requires
        cs.len() > 0,
    ensures
        cue_blocks(cs, sep).len() > 0,
        cue_blocks(cs, sep).last() == '\n',
{
    let b = cue_block(cs.last(), sep);
    assert(b.last() == '\n');
}

/// The pieces of written cues, split at their newlines.
proof fn lemma_split_blocks(cs: Seq<CueModel>, sep: char)
    requires
        sep == ',' || sep == '.',
    ensures
        split_on(cue_blocks(cs, sep), '\n') == all_lines(cs, sep) + seq![Seq::<char>::empty()],
    decreases cs.len(),
{
    let e = Seq::<char>::empty();
    if cs.len() == 0 {
        lemma_split_single(e, '\n');
        assert(all_lines(cs, sep) + seq![e] =~= seq![e]);
    } else {
        let init = cs.drop_last();
        let c = cs.last();
        lemma_split_block(c, sep);
        lemma_all_lines_concat(init, seq![c], sep);
        lemma_all_lines_single(c, sep);
        assert(init + seq![c] =~= cs);
        assert(cue_blocks(cs, sep) == cue_blocks(init, sep) + cue_block(c, sep));
        if init.len() == 0 {
            assert(cue_blocks(init, sep) == Seq::<char>::empty());
            assert(cue_blocks(cs, sep) =~= cue_block(c, sep));
            assert(all_lines(init, sep) =~= Seq::<Seq<char>>::empty());
            assert(all_lines(cs, sep) + seq![e] =~= block_lines(c, sep) + seq![e]);
        } else {
            lemma_split_blocks(init, sep);
            let p = cue_blocks(init, sep);
            lemma_cue_blocks_ends_with_newline(init, sep);
            let q = p.drop_last();
            assert(p =~= q + seq!['\n'] + e);
            lemma_split_concat(q, '\n', e);
            lemma_split_single(e, '\n');
            assert(split_on(q, '\n') =~= (all_lines(init, sep) + seq![e]).drop_last());
            assert(cue_blocks(cs, sep) =~= q + seq!['\n'] + cue_block(c, sep));
            lemma_split_concat(q, '\n', cue_block(c, sep));
            assert(split_on(cue_blocks(cs, sep), '\n') =~= all_lines(cs, sep) + seq![e]);
        }
    }
}

/// The lines of written cues.
proof fn lemma_lines_of_blocks(cs: Seq<CueModel>, sep: char)
    requires
        sep == ',' || sep == '.',
    ensures
        lines_of(cue_blocks(cs, sep)) == all_lines(cs, sep),
{
    lemma_split_blocks(cs, sep);
    let e = Seq::<char>::empty();
    assert((all_lines(cs, sep) + seq![e]).drop_last() =~= all_lines(cs, sep));
}

proof fn lemma_has_no_add(a: Seq<char>, b: Seq<char>, ch: char)
    requires
        has_no(a, ch),
        has_no(b, ch),
    ensures
        has_no(a + b, ch),
{
    assert forall|i: int| 0 <= i < (a + b).len() implies (a + b)[i] != ch by {
        if i < a.len() {
            assert((a + b)[i] == a[i]);
        } else {
            assert((a + b)[i] == b[i - a.len()]);
        }
    }
}

proof fn lemma_has_no_single(c: char, ch: char)
    requires
        c != ch,
    ensures
        has_no(seq![c], ch),
{
}

/// One written cue holds no carriage return.
proof fn lemma_block_no_cr(c: CueModel, sep: char)
    requires
        sep == ',' || sep == '.',
        has_no(c.text, '\r'),
    ensures
        has_no(cue_block(c, sep), '\r'),
        is_digit(cue_block(c, sep)[0]),
{
    let d = decimal(c.index);
    let a = clock_text(c.start, sep);
    let z = clock_text(c.end, sep);
    lemma_decimal_chars(c.index);
    lemma_clock_text_chars(c.start, sep);
    lemma_clock_text_chars(c.end, sep);
    lemma_clock_chars_have_no(d, '\r');
    lemma_clock_chars_have_no(a, '\r');
    lemma_clock_chars_have_no(z, '\r');
    let nl = seq!['\n'];
    lemma_has_no_single('\n', '\r');
    assert(has_no(arrow_text(), '\r'));
    let body = if c.text.len() == 0 {
        Seq::<char>::empty()
    } else {
        c.text + nl
    };
    if c.text.len() > 0 {
        lemma_has_no_add(c.text, nl, '\r');
    }
    lemma_has_no_add(d, nl, '\r');
    lemma_has_no_add(d + nl, a, '\r');
    lemma_has_no_add(d + nl + a, arrow_text(), '\r');
    lemma_has_no_add(d + nl + a + arrow_text(), z, '\r');
    lemma_has_no_add(d + nl + a + arrow_text() + z, nl, '\r');
    lemma_has_no_add(d + nl + a + arrow_text() + z + nl, body, '\r');
    lemma_has_no_add(d + nl + a + arrow_text() + z + nl + body, nl, '\r');
    assert(cue_block(c, sep) == d + nl + a + arrow_text() + z + nl + body + nl);
    assert(cue_block(c, sep)[0] == d[0]);
}

/// Written cues hold no carriage return, and start with a digit.
proof fn lemma_blocks_chars(cs: Seq<CueModel>, sep: char)
    requires
        sep == ',' || sep == '.',
        forall|i: int| 0 <= i < cs.len() ==> has_no(#[trigger] cs[i].text, '\r'),
    ensures
        has_no(cue_blocks(cs, sep), '\r'),
        cs.len() > 0 ==> cue_blocks(cs, sep).len() > 0 && is_digit(cue_blocks(cs, sep)[0]),
    decreases cs.len(),
{
    if cs.len() > 0 {
        let init = cs.drop_last();
        let c = cs.last();
        assert forall|i: int| 0 <= i < init.len() implies has_no(#[trigger] init[i].text, '\r') by {
            assert(init[i] == cs[i]);
        }
        lemma_blocks_chars(init, sep);
        assert(has_no(c.text, '\r'));
        lemma_block_no_cr(c, sep);
        let p = cue_blocks(init, sep);
        let b = cue_block(c, sep);
        lemma_has_no_add(p, b, '\r');
        assert(cue_blocks(cs, sep) == p + b);
        if init.len() > 0 {
            assert((p + b)[0] == p[0]);
        } else {
            assert((p + b)[0] == b[0]);
        }
    }
}

// ---------------------------------------------------------------------------
// Parsing written lines
// ---------------------------------------------------------------------------

proof fn lemma_no_arrow(s: Seq<char>, i: nat)
    requires
        has_no(s, '-'),
    ensures
        arrow_from(s, i) == s.len(),
    decreases s.len() - i,
{
    if !(i + 3 > s.len()) {
        assert(s[i as int] != '-');
        lemma_no_arrow(s, i + 1);
    }
}

proof fn lemma_arrow_at(s: Seq<char>, i: nat, a: nat)
    requires
        i <= a,
        is_arrow_at(s, a as int),
        forall|q: int| i <= q < a ==> !is_arrow_at(s, q),
    ensures
        arrow_from(s, i) == a,
    decreases a - i,
{
    if i < a {
        lemma_arrow_at(s, i + 1, a);
    }
}

proof fn lemma_block_end_at(ls: Seq<Seq<char>>, j: nat, e: nat)
    requires
        j <= e < ls.len(),
        forall|q: int| j <= q < e ==> !is_blank(#[trigger] ls[q]),
        is_blank(ls[e as int]),
    ensures
        block_end(ls, j) == e,
    decreases e - j,
{
    if j < e {
        lemma_block_end_at(ls, j + 1, e);
    }
}

/// The start and end texts of `a --> z`, for formatted times `a` and `z`.
proof fn lemma_timing_parts(a: Seq<char>, z: Seq<char>)
    requires
        clock_chars(a),
        clock_chars(z),
        a.len() > 0,
        z.len() > 0,
        is_digit(a[0]),
        is_digit(a.last()),
        is_digit(z[0]),
    ensures
        is_timing_line(a + arrow_text() + z),
        timing_start(a + arrow_text() + z) == a,
        timing_end(a + arrow_text() + z) == z,
{
    let t = a + arrow_text() + z;
    let k = a.len() as int;
    assert(t[k] == ' ');
    assert(t[k + 1] == '-' && t[k + 2] == '-' && t[k + 3] == '>');
    assert forall|q: int| 0 <= q < k + 1 implies !is_arrow_at(t, q) by {
        if q < k {
            assert(t[q] == a[q]);
            assert(is_clock_char(a[q]));
        }
    }
    lemma_arrow_at(t, 0, (k + 1) as nat);
    assert(arrow_index(t) == k + 1);
    // The start: `a` and a space, trimmed.
    let lhs = t.take(k + 1);
    assert(lhs =~= a.push(' '));
    assert(!is_ws(a[0]));
    assert(trim_start(lhs) == lhs);
    assert(lhs.drop_last() =~= a);
    assert(!is_ws(a.last()));
    assert(trim_end(lhs) == trim_end(a));
    assert(trim_end(a) == a);
    // The end: the first token after the arrow.
    let rhs = t.skip(k + 4);
    assert(rhs =~= seq![' '] + z);
    assert(rhs.drop_first() =~= z);
    assert(!is_ws(z[0]));
    assert(trim_start(z) == z);
    assert(rhs[0] == ' ');
    assert(trim_start(rhs) == trim_start(rhs.drop_first()));
    assert(trim_start(rhs) == z);
    assert forall|q: int| 0 <= q < z.len() implies !(#[trigger] ws()(z[q])) by {
        assert(is_clock_char(z[q]));
    }
    lemma_first_index(z, ws(), z.len());
    assert(z.take(z.len() as int) =~= z);
}

/// Reading a written timing line gives the cue's start and end back.
proof fn lemma_read_timing(c: CueModel, sep: char)
    requires
        sep == ',' || sep == '.',
        0 <= c.start <= i64::MAX,
        0 <= c.end <= i64::MAX,
    ensures
        is_timing_line(timing_text(c, sep)),
        timestamp_value(timing_start(timing_text(c, sep))) == Some(c.start),
        timestamp_value(timing_end(timing_text(c, sep))) == Some(c.end),
{
    lemma_clock_text_chars(c.start, sep);
    lemma_clock_text_chars(c.end, sep);
    lemma_timing_parts(clock_text(c.start, sep), clock_text(c.end, sep));
    lemma_clock_text_reads_back(c.start, sep);
    lemma_clock_text_reads_back(c.end, sep);
}

/// The index line of a written cue starts no block and holds no `-->`.
proof fn lemma_index_line(n: nat)
    ensures
        !is_blank(decimal(n)),
        !is_header_line(decimal(n)),
        !is_block_head(decimal(n)),
        !is_timing_line(decimal(n)),
{
    let d = decimal(n);
    lemma_decimal_chars(n);
    assert(is_digit(d[0]));
    assert(!is_ws(d[0]));
    assert(trim_start(d) == d);
    if webvtt().len() <= d.len() {
        assert(d.take(6)[0] == d[0]);
    }
    if note_space().len() <= d.len() {
        assert(d.take(5)[0] == d[0]);
    }
    assert(d != note()) by {
        if d == note() {
            assert(d[0] == 'N');
        }
    }
    assert(d != style()) by {
        if d == style() {
            assert(d[0] == 'S');
        }
    }
    assert(d != region()) by {
        if d == region() {
            assert(d[0] == 'R');
        }
    }
    lemma_clock_chars_have_no(d, '-');
    lemma_no_arrow(d, 0);
}

/// Parsing at the first line of a written cue reads that cue and goes on
/// after its blank line.
proof fn lemma_parse_block_step(ls: Seq<Seq<char>>, p: int, c: CueModel, sep: char)
    requires
        sep == ',' || sep == '.',
        0 <= p,
        p + block_lines(c, sep).len() <= ls.len(),
        forall|i: int| 0 <= i < block_lines(c, sep).len() ==> ls[p + i] == #[trigger] block_lines(c, sep)[i],
        0 <= c.start <= i64::MAX,
        0 <= c.end <= i64::MAX,
        writable_text(c.text),
    ensures
        parse_from(ls, p as nat, c.index) == crate::parse::prepend(
            seq![c],
            parse_from(ls, (p + block_lines(c, sep).len()) as nat, c.index + 1),
        ),
{
    reveal(parse_from);
    let bl = block_lines(c, sep);
    let tl = text_lines(c.text);
    let m = tl.len() as int;
    assert(bl.len() == m + 3);
    // The index line, then the timing line.
    lemma_index_line(c.index);
    assert(ls[p] == bl[0]);
    assert(ls[p + 1] == bl[1]);
    lemma_read_timing(c, sep);
    // The body runs to the blank line that ends the block.
    assert forall|q: int| p + 2 <= q < p + 2 + m implies !is_blank(#[trigger] ls[q]) by {
        assert(ls[p + (q - p)] == bl[q - p]);
        assert(bl[q - p] == tl[q - p - 2]);
    }
    assert(ls[p + (m + 2)] == bl[m + 2]);
    assert(is_blank(ls[p + 2 + m]));
    lemma_block_end_at(ls, (p + 2) as nat, (p + 2 + m) as nat);
    assert forall|i: int| 0 <= i < m implies ls.subrange(p + 2, p + 2 + m)[i] == tl[i] by {
        assert(ls[p + (i + 2)] == bl[i + 2]);
    }
    assert(ls.subrange(p + 2, p + 2 + m) =~= tl);
    assert(join_lines(tl) == c.text) by {
        if c.text.len() > 0 {
            lemma_join_split(c.text);
        }
    }
    assert(parse_from(ls, (p + 2 + m) as nat, c.index + 1) == parse_from(
        ls,
        (p + 3 + m) as nat,
        c.index + 1,
    ));
}

/// Parsing the written lines of `cs`, after any lines `x`, from the block of
/// cue `j` on, gives the cues from `j` on.
#[verifier::rlimit(40)]
proof fn lemma_parse_blocks(x: Seq<Seq<char>>, cs: Seq<CueModel>, sep: char, j: nat)
    requires
        writable(cs),
        j <= cs.len(),
        sep == ',' || sep == '.',
    ensures
        parse_from(x + all_lines(cs, sep), x.len() + all_lines(cs.take(j as int), sep).len(), j + 1)
            == Ok::<Seq<CueModel>, crate::error::FailureModel>(cs.skip(j as int)),
    decreases cs.len() - j,
{
    let ls = x + all_lines(cs, sep);
    let jj = j as int;
    let before = all_lines(cs.take(jj), sep);
    let p: int = (x.len() + before.len()) as int;
    if j == cs.len() {
        assert(cs.take(jj) =~= cs);
        assert(cs.skip(jj) =~= Seq::<CueModel>::empty());
        reveal(parse_from);
    } else {
        let c = cs[jj];
        assert(c.index == j + 1);
        let bl = block_lines(c, sep);
        let after = all_lines(cs.skip(jj + 1), sep);
        assert(ls == x + before + bl + after) by {
            assert(cs =~= cs.take(jj) + (seq![c] + cs.skip(jj + 1)));
            lemma_all_lines_concat(cs.take(jj), seq![c] + cs.skip(jj + 1), sep);
            lemma_all_lines_concat(seq![c], cs.skip(jj + 1), sep);
            lemma_all_lines_single(c, sep);
            assert(ls =~= x + before + bl + after);
        }
        assert(p + bl.len() == x.len() + all_lines(cs.take(jj + 1), sep).len()) by {
            assert(cs.take(jj + 1) =~= cs.take(jj) + seq![c]);
            lemma_all_lines_concat(cs.take(jj), seq![c], sep);
            lemma_all_lines_single(c, sep);
        }
        assert forall|i: int| 0 <= i < bl.len() implies ls[p + i] == #[trigger] bl[i] by {
            assert(ls[p + i] == (x + before + bl + after)[p + i]);
        }
        assert(0 <= c.start <= i64::MAX && 0 <= c.end <= i64::MAX && writable_text(c.text));
        lemma_parse_block_step(ls, p, c, sep);
        lemma_parse_blocks(x, cs, sep, j + 1);
        assert(seq![c] + cs.skip(jj + 1) =~= cs.skip(jj));
    }
}

/// Parsing the SRT text of cues gives the same cues, for every list of cues
/// that can be written: numbered 1..N, with times from 0 to `i64::MAX`
/// milliseconds and bodies that hold no carriage return and no blank line.
pub proof fn lemma_srt_round_trip(cs: Seq<CueModel>)
    requires
        writable(cs),
    ensures
        parse_model(srt_text(cs)) == Ok::<Seq<CueModel>, crate::error::FailureModel>(cs),
{
    assert forall|i: int| 0 <= i < cs.len() implies has_no(#[trigger] cs[i].text, '\r') by {
        assert(writable_text(cs[i].text));
    }
    lemma_blocks_chars(cs, ',');
    lemma_normalize_identity(srt_text(cs));
    lemma_lines_of_blocks(cs, ',');
    lemma_parse_blocks(Seq::empty(), cs, ',', 0);
    assert(Seq::<Seq<char>>::empty() + all_lines(cs, ',') =~= all_lines(cs, ','));
    assert(cs.take(0) =~= Seq::<CueModel>::empty());
    assert(cs.skip(0) =~= cs);
}

/// The lines of the WebVTT text of cues: the header, a blank line, the cues.
proof fn lemma_vtt_lines(cs: Seq<CueModel>)
    requires
        writable(cs),
    ensures
        lines_of(normalize(vtt_text(cs))) == seq![webvtt(), Seq::<char>::empty()] + all_lines(
            cs,
            '.',
        ),
{
    assert forall|i: int| 0 <= i < cs.len() implies has_no(#[trigger] cs[i].text, '\r') by {
        assert(writable_text(cs[i].text));
    }
    lemma_blocks_chars(cs, '.');
    let w = webvtt();
    let e = Seq::<char>::empty();
    let body = cue_blocks(cs, '.');
    let text = vtt_text(cs);
    assert(text =~= w + seq!['\n'] + (e + seq!['\n'] + body));
    assert(has_no(text, '\r')) by {
        assert forall|i: int| 0 <= i < text.len() implies text[i] != '\r' by {
            if i >= 8 {
                assert(text[i] == body[i - 8]);
            }
        }
    }
    lemma_normalize_identity(text);
    lemma_split_blocks(cs, '.');
    lemma_split_concat(w, '\n', e + seq!['\n'] + body);
    lemma_split_concat(e, '\n', body);
    lemma_split_single(w, '\n');
    lemma_split_single(e, '\n');
    let x = seq![w, e];
    assert(split_on(text, '\n') =~= x + all_lines(cs, '.') + seq![e]);
    assert(lines_of(text) =~= x + all_lines(cs, '.'));
}

/// Parsing the WebVTT text of cues gives the same cues, for the same cues as
/// [`lemma_srt_round_trip`].
pub proof fn lemma_vtt_round_trip(cs: Seq<CueModel>)
    requires
        writable(cs),
    ensures
        parse_model(vtt_text(cs)) == Ok::<Seq<CueModel>, crate::error::FailureModel>(cs),
{
    let w = webvtt();
    let e = Seq::<char>::empty();
    let x = seq![w, e];
    let ls = x + all_lines(cs, '.');
    lemma_vtt_lines(cs);
    reveal(parse_from);
    // The header line and the blank line after it are skipped.
    assert(!is_blank(w)) by {
        assert(!is_ws(w[0]));
    }
    assert(trim_start(w) == w);
    assert(w.take(6) =~= w);
    assert(is_header_line(w));
    assert(ls[0] == w);
    assert(ls[1] == e);
    lemma_parse_blocks(x, cs, '.', 0);
    assert(cs.take(0) =~= Seq::<CueModel>::empty());
    assert(cs.skip(0) =~= cs);
    assert(all_lines(cs.take(0), '.') == Seq::<Seq<char>>::empty());
    assert(parse_from(ls, 2, 1) == Ok::<Seq<CueModel>, crate::error::FailureModel>(cs));
    assert(is_blank(e));
    assert(parse_from(ls, 1, 1) == parse_from(ls, 2, 1));
    assert(parse_from(ls, 0, 1) == parse_from(ls, 1, 1));
}


// ---------------------------------------------------------------------------
// Parsed cues can be written
// ---------------------------------------------------------------------------

/// The lines of normalized text hold neither `\n` nor `\r`.
proof fn lemma_normalized_lines(input: Seq<char>)
    ensures
        forall|k: int|
            0 <= k < lines_of(normalize(input)).len() ==> has_no(
                #[trigger] lines_of(normalize(input))[k],
                '\n',
            ) && has_no(lines_of(normalize(input))[k], '\r'),
{
    let s = normalize(input);
    crate::laws_text::lemma_crlf_no_cr(crate::text::strip_bom(input));
    crate::laws_text::lemma_split_pieces(s, '\n');
    crate::laws_text::lemma_split_keeps_no(s, '\n', '\r');
    let p = split_on(s, '\n');
    crate::text::lemma_split_nonempty(s, '\n', Seq::empty());
    let l = lines_of(s);
    assert forall|k: int| 0 <= k < l.len() implies has_no(#[trigger] l[k], '\n') && has_no(
        l[k],
        '\r',
    ) by {
        assert(l[k] == p[k]);
    }
}

proof fn lemma_digits_nonneg_all(s: Seq<char>)
    requires
        all_digits(s),
    ensures
        crate::numeral::digits_value(s) >= 0,
{
    crate::numeral::lemma_digits_value_nonneg(s);
}

/// A timestamp is never negative.
pub proof fn lemma_timestamp_nonneg(raw: Seq<char>)
    ensures
        timestamp_value(raw) matches Some(v) ==> v >= 0,
{
    reveal(timestamp_value);
    let s = trim(raw);
    let f = fraction_part(s);
    let parts = split_on(clock_part(s), ':');
    if let Some(v) = timestamp_value(raw) {
        let ms = millis_value(f)->0;
        if f.len() > 0 {
            let padded = f + crate::numeral::zeros((3 - f.len()) as nat);
            assert(all_digits(padded)) by {
                assert forall|i: int| 0 <= i < padded.len() implies is_digit(#[trigger] padded[i]) by {
                    if i < f.len() {
                        assert(padded[i] == f[i]);
                    } else {
                        assert(padded[i] == '0');
                    }
                }
            }
            lemma_digits_nonneg_all(padded);
        }
        let h = if parts.len() == 3 {
            field_value(parts[0])->0
        } else {
            0
        };
        let m = field_value(parts[parts.len() - 2])->0;
        let sec = field_value(parts[parts.len() - 1])->0;
        if parts.len() == 3 {
            lemma_digits_nonneg_all(trim(parts[0]));
        }
        lemma_digits_nonneg_all(trim(parts[parts.len() - 2]));
        lemma_digits_nonneg_all(trim(parts[parts.len() - 1]));
        assert(((h * 60 + m) * 60 + sec) * 1000 + ms >= 0) by (nonlinear_arith)
            requires
                h >= 0,
                m >= 0,
                sec >= 0,
                ms >= 0,
        ;
    }
}

proof fn lemma_block_end_lines(ls: Seq<Seq<char>>, j: nat)
    requires
        j <= ls.len(),
    ensures
        forall|q: int| j <= q < block_end(ls, j) ==> !is_blank(#[trigger] ls[q]),
    decreases ls.len() - j,
{
    if !(j >= ls.len() || is_blank(ls[j as int])) {
        lemma_block_end_lines(ls, j + 1);
    }
}

/// A body gathered from non-blank lines without `\n` or `\r` can be written.
proof fn lemma_joined_writable(ls: Seq<Seq<char>>)
    requires
        forall|k: int|
            0 <= k < ls.len() ==> has_no(#[trigger] ls[k], '\n') && has_no(ls[k], '\r') && !is_blank(
                ls[k],
            ),
    ensures
        writable_text(join_lines(ls)),
    decreases ls.len(),
{
    if ls.len() == 0 {
        assert(join_lines(ls) =~= Seq::<char>::empty());
    } else {
        let t = join_lines(ls);
        if ls.len() == 1 {
            assert(t == ls[0]);
        } else {
            let init = ls.drop_last();
            assert forall|k: int| 0 <= k < init.len() implies has_no(#[trigger] init[k], '\n')
                && has_no(init[k], '\r') && !is_blank(init[k]) by {
                assert(init[k] == ls[k]);
            }
            lemma_joined_writable(init);
            lemma_has_no_add(join_lines(init), seq!['\n'], '\r');
            lemma_has_no_add(join_lines(init) + seq!['\n'], ls.last(), '\r');
        }
        crate::laws_text::lemma_split_join(ls);
        assert(ls[0].len() > 0);
        assert(t.len() > 0) by {
            if ls.len() == 1 {
            } else {
                assert(t.len() >= ls.last().len());
            }
        }
    }
}

/// Every cue that parsing reads is numbered in order from `next`, has times
/// from 0 to `i64::MAX` milliseconds, and a body that can be written.
proof fn lemma_parse_from_writable(ls: Seq<Seq<char>>, i: nat, next: nat)
    requires
        forall|k: int| 0 <= k < ls.len() ==> has_no(#[trigger] ls[k], '\n') && has_no(ls[k], '\r'),
    ensures
        parse_from(ls, i, next) matches Ok(r) ==> forall|k: int|
            0 <= k < r.len() ==> {
                &&& (#[trigger] r[k]).index == next + k
                &&& 0 <= r[k].start <= i64::MAX
                &&& 0 <= r[k].end <= i64::MAX
                &&& writable_text(r[k].text)
            },
    decreases ls.len() - i,
{
    reveal(parse_from);
    if i >= ls.len() {
    } else if is_blank(ls[i as int]) || is_header_line(ls[i as int]) {
        lemma_parse_from_writable(ls, i + 1, next);
    } else if is_block_head(ls[i as int]) {
        crate::parse::lemma_block_end(ls, i + 1);
        lemma_parse_from_writable(ls, block_end(ls, i + 1), next);
    } else if !is_timing_line(ls[i as int]) && !(i + 1 < ls.len() && is_timing_line(
        ls[i as int + 1],
    )) {
    } else {
        let t: nat = if is_timing_line(ls[i as int]) {
            i
        } else {
            i + 1
        };
        let timing = ls[t as int];
        crate::parse::lemma_block_end(ls, t + 1);
        let j = block_end(ls, t + 1);
        lemma_parse_from_writable(ls, j, next + 1);
        lemma_timestamp_nonneg(timing_start(timing));
        lemma_timestamp_nonneg(timing_end(timing));
        let body = ls.subrange(t as int + 1, j as int);
        lemma_block_end_lines(ls, t + 1);
        assert forall|k: int| 0 <= k < body.len() implies has_no(#[trigger] body[k], '\n')
            && has_no(body[k], '\r') && !is_blank(body[k]) by {
            assert(body[k] == ls[t + 1 + k]);
        }
        lemma_joined_writable(body);
        if let Ok(r) = parse_from(ls, i, next) {
            let rest = parse_from(ls, j, next + 1)->Ok_0;
            assert forall|k: int| 0 <= k < r.len() implies {
                &&& (#[trigger] r[k]).index == next + k
                &&& 0 <= r[k].start <= i64::MAX
                &&& 0 <= r[k].end <= i64::MAX
                &&& writable_text(r[k].text)
            } by {
                if k > 0 {
                    assert(r[k] == rest[k - 1]);
                }
            }
        }
    }
}

/// What parsing reads can be written and read back.
pub proof fn lemma_parsed_writable(input: Seq<char>)
    requires
        parse_model(input) is Ok,
    ensures
        writable(parse_model(input)->Ok_0),
{
    lemma_normalized_lines(input);
    lemma_parse_from_writable(lines_of(normalize(input)), 0, 1);
}

/// Parsing numbers the cues it reads 1..N in order of appearance, and never
/// reads a negative time.
pub proof fn lemma_parse_numbered(input: Seq<char>)
    requires
        parse_model(input) is Ok,
    ensures
        forall|i: int|
            0 <= i < parse_model(input)->Ok_0.len() ==> (#[trigger] parse_model(input)->Ok_0[i]).index
                == i + 1 && parse_model(input)->Ok_0[i].start >= 0 && parse_model(input)->Ok_0[i].end
                >= 0,
{
    lemma_parsed_writable(input);
}

/// Written SRT uses `\n` line endings and ends with a newline: it holds no
/// carriage return when the bodies hold none.
pub proof fn lemma_srt_line_endings(cs: Seq<CueModel>)
    requires
        forall|i: int| 0 <= i < cs.len() ==> has_no(#[trigger] cs[i].text, '\r'),
    ensures
        has_no(srt_text(cs), '\r'),
        cs.len() > 0 ==> srt_text(cs).last() == '\n',
{
    lemma_blocks_chars(cs, ',');
    if cs.len() > 0 {
        lemma_cue_blocks_ends_with_newline(cs, ',');
    }
}

/// Converting parsed subtitles to SRT or to WebVTT and parsing the result
/// gives the same cues.
pub proof fn lemma_reparse(input: Seq<char>)
    requires
        parse_model(input) is Ok,
    ensures
        parse_model(srt_text(parse_model(input)->Ok_0)) == parse_model(input),
        parse_model(vtt_text(parse_model(input)->Ok_0)) == parse_model(input),
{
    lemma_parsed_writable(input);
    lemma_srt_round_trip(parse_model(input)->Ok_0);
    lemma_vtt_round_trip(parse_model(input)->Ok_0);
}

} // verus!
