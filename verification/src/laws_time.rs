//! Reading back what the timestamp formatter writes.

use vstd::prelude::*;
use vstd::arithmetic::div_mod::lemma_fundamental_div_mod_converse;
use crate::laws_text::{has_no, lemma_split_concat, lemma_split_single, lemma_trim_identity};
use crate::numeral::{digits_value, lemma_zero_pad, zero_pad, zeros};
use crate::text::{all_digits, is_digit, lemma_first_index, split_on};
use crate::timestamp::{
    clock_fields, clock_text, field_value, fraction_part, clock_part, ms_sep, timestamp_value,
};

verus! {

proof fn lemma_clock_arith(t: int)
    requires
        t >= 0,
    ensures
        ({
            let (h, m, s, x) = clock_fields(t);
            &&& m < 60
            &&& s < 60
            &&& x < 1000
            &&& h <= t
            &&& ((h * 60 + m) * 60 + s) * 1000 + x == t
        }),
{
    reveal(clock_fields);
    let h = t / 3_600_000;
    let r1 = t % 3_600_000;
    let m = r1 / 60_000;
    let r2 = r1 % 60_000;
    let s = r2 / 1000;
    let x = r2 % 1000;
    assert(t == h * 3_600_000 + r1 && 0 <= r1 < 3_600_000);
    assert(r1 == m * 60_000 + r2 && 0 <= r2 < 60_000);
    assert(r2 == s * 1000 + x && 0 <= x < 1000);
    assert(t == (h * 60 + m) * 60_000 + r2) by (nonlinear_arith)
        requires
            t == h * 3_600_000 + r1,
            r1 == m * 60_000 + r2,
    ;
    lemma_fundamental_div_mod_converse(t, 60_000, h * 60 + m, r2);
    assert(t == ((h * 60 + m) * 60 + s) * 1000 + x) by (nonlinear_arith)
        requires
            t == (h * 60 + m) * 60_000 + r2,
            r2 == s * 1000 + x,
    ;
    lemma_fundamental_div_mod_converse(t, 1000, (h * 60 + m) * 60 + s, x);
    assert(m < 60) by (nonlinear_arith)
        requires
            r1 == m * 60_000 + r2,
            0 <= r2,
            r1 < 3_600_000,
    ;
    assert(h <= t) by (nonlinear_arith)
        requires
            t == h * 3_600_000 + r1,
            0 <= r1,
            t >= 0,
    ;
}

/// Minutes and seconds are below 60 and milliseconds below 1000.
pub proof fn lemma_clock_field_bounds(ms: int)
    ensures
        ({
            let (h, m, s, x) = clock_fields(ms);
            m < 60 && s < 60 && x < 1000
        }),
{
    let t = if ms < 0 {
        0
    } else {
        ms
    };
    lemma_clock_arith(t);
    reveal(clock_fields);
}

/// Reading a formatted timestamp gives its time back: for every time from 0 to
/// `i64::MAX` milliseconds, with either millisecond separator.
pub proof fn lemma_clock_text_reads_back(ms: int, sep: char)
    requires
        0 <= ms <= i64::MAX,
        sep == ',' || sep == '.',
    ensures
        timestamp_value(clock_text(ms, sep)) == Some(ms),
{
    reveal(timestamp_value);
    let (h, m, s, x) = clock_fields(ms);
    lemma_clock_arith(ms);
    lemma_zero_pad(h, 2);
    lemma_zero_pad(m, 2);
    lemma_zero_pad(s, 2);
    lemma_zero_pad(x, 3);
    let hh = zero_pad(h, 2);
    let mm = zero_pad(m, 2);
    let ss = zero_pad(s, 2);
    let xx = zero_pad(x, 3);
    let c = clock_text(ms, sep);
    assert(c == hh + seq![':'] + mm + seq![':'] + ss + seq![sep] + xx);
    let k = hh.len() + 6;
    // Digits are neither separators, nor whitespace, nor `:`.
    assert forall|j: int| 0 <= j < c.len() implies (#[trigger] c[j] == ':' || c[j] == sep || is_digit(c[j])) by {
        if j < hh.len() {
            assert(c[j] == hh[j]);
        } else if j == hh.len() {
        } else if j < hh.len() + 3 {
            assert(c[j] == mm[j - hh.len() - 1]);
        } else if j == hh.len() + 3 {
        } else if j < hh.len() + 6 {
            assert(c[j] == ss[j - hh.len() - 4]);
        } else if j == k {
        } else {
            assert(c[j] == xx[j - k - 1]);
        }
    }
    assert(is_digit(c[0]));
    assert(is_digit(c.last()));
    lemma_trim_identity(c);
    assert forall|j: int| 0 <= j < k implies !(#[trigger] ms_sep()(c[j])) by {
        if j < hh.len() {
            assert(c[j] == hh[j]);
        } else if j == hh.len() {
        } else if j < hh.len() + 3 {
            assert(c[j] == mm[j - hh.len() - 1]);
        } else if j == hh.len() + 3 {
        } else {
            assert(c[j] == ss[j - hh.len() - 4]);
        }
    }
    assert(c[k as int] == sep);
    lemma_first_index(c, ms_sep(), k);
    assert(clock_part(c) =~= hh + seq![':'] + (mm + seq![':'] + ss));
    assert(fraction_part(c) =~= xx);
    assert(xx + zeros(0) =~= xx);
    // The clock splits into its three fields.
    lemma_digits_have_no(hh, ':');
    lemma_digits_have_no(mm, ':');
    lemma_digits_have_no(ss, ':');
    lemma_split_concat(hh, ':', mm + seq![':'] + ss);
    lemma_split_concat(mm, ':', ss);
    lemma_split_single(hh, ':');
    lemma_split_single(mm, ':');
    lemma_split_single(ss, ':');
    let parts = split_on(clock_part(c), ':');
    assert(parts =~= seq![hh, mm, ss]);
    lemma_digits_field(hh);
    lemma_digits_field(mm);
    lemma_digits_field(ss);
}

proof fn lemma_digits_have_no(d: Seq<char>, c: char)
    requires
        all_digits(d),
        !is_digit(c),
    ensures
        has_no(d, c),
{
    assert forall|i: int| 0 <= i < d.len() implies d[i] != c by {
        assert(is_digit(d[i]));
    }
}

/// A non-empty run of digits is a field worth its value, when an `i64` holds it.
proof fn lemma_digits_field(d: Seq<char>)
    requires
        d.len() > 0,
        all_digits(d),
        digits_value(d) <= i64::MAX,
    ensures
        field_value(d) == Some(digits_value(d)),
{
    assert(is_digit(d[0]));
    assert(is_digit(d.last()));
    lemma_trim_identity(d);
}

} // verus!
