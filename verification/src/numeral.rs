//! Decimal numerals: their values, their rendering, and zero padding.

use vstd::prelude::*;
use crate::text::{all_digits, is_digit, push_char};

verus! {

pub open spec fn digit_value(c: char) -> int {
    (c as int) - 48
}

pub open spec fn digit_char(d: int) -> char {
    (d + 48) as char
}

/// The value of a string of decimal digits (most significant first).
pub open spec fn digits_value(s: Seq<char>) -> int
    decreases s.len(),
{
    if s.len() == 0 {
        0
    } else {
        digits_value(s.drop_last()) * 10 + digit_value(s.last())
    }
}

/// The shortest decimal rendering of `n`.
pub open spec fn decimal(n: nat) -> Seq<char>
    decreases n,
{
    if n < 10 {
        seq![digit_char(n as int)]
    } else {
        decimal(n / 10).push(digit_char((n % 10) as int))
    }
}

pub open spec fn zeros(k: nat) -> Seq<char> {
    Seq::new(k, |_i: int| '0')
}

/// `n` in decimal, left-padded with `0` to at least `w` characters
/// (what `format!("{:0w$}", n)` prints).
pub open spec fn zero_pad(n: nat, w: nat) -> Seq<char> {
    if decimal(n).len() < w {
        zeros((w - decimal(n).len()) as nat) + decimal(n)
    } else {
        decimal(n)
    }
}

pub open spec fn ten_pow(k: nat) -> nat
    decreases k,
{
    if k == 0 {
        1
    } else {
        10 * ten_pow((k - 1) as nat)
    }
}

/// A run of `k` digits is worth less than `10^k`.
pub proof fn lemma_digits_bound(s: Seq<char>)
    requires
        all_digits(s),
    ensures
        0 <= digits_value(s) < ten_pow(s.len()),
    decreases s.len(),
{
    if s.len() > 0 {
        lemma_digits_bound(s.drop_last());
        assert(is_digit(s[s.len() - 1]));
    }
}

/// Appending `k` zeros multiplies a value by `10^k`.
pub proof fn lemma_zeros_suffix(s: Seq<char>, k: nat)
    ensures
        digits_value(s + zeros(k)) == digits_value(s) * ten_pow(k),
    decreases k,
{
    if k == 0 {
        assert(s + zeros(0) =~= s);
        assert(ten_pow(0) == 1);
    } else {
        assert(ten_pow(k) == 10 * ten_pow((k - 1) as nat));
        lemma_zeros_suffix(s, (k - 1) as nat);
        assert((s + zeros(k)).drop_last() =~= s + zeros((k - 1) as nat));
        assert((s + zeros(k)).last() == '0');
        assert(digits_value(s + zeros(k)) == digits_value(s + zeros((k - 1) as nat)) * 10);
        assert(digits_value(s) * ten_pow((k - 1) as nat) * 10 == digits_value(s) * ten_pow(k))
            by (nonlinear_arith)
            requires
                ten_pow(k) == 10 * ten_pow((k - 1) as nat),
        ;
    }
}

/// Whether `v[lo..hi]` is all digits.
pub fn all_digits_of(v: &Vec<char>, lo: usize, hi: usize) -> (b: bool)
    requires
        lo <= hi <= v.len(),
    ensures
        b == all_digits(v@.subrange(lo as int, hi as int)),
{
    let mut i = lo;
    while i < hi
        invariant
            lo <= i <= hi <= v.len(),
            forall|k: int| lo <= k < i ==> is_digit(v@[k]),
        decreases hi - i,
    {
        if !is_digit_char(v[i]) {
            assert(v@.subrange(lo as int, hi as int)[i - lo] == v@[i as int]);
            return false;
        }
        i += 1;
    }
    assert forall|k: int| 0 <= k < hi - lo implies is_digit(
        #[trigger] v@.subrange(lo as int, hi as int)[k],
    ) by {
        assert(v@.subrange(lo as int, hi as int)[k] == v@[lo + k]);
    }
    true
}

pub fn digit_to_char(d: u64) -> (c: char)
    requires
        d < 10,
    ensures
        c == digit_char(d as int),
        is_digit(c),
        digit_value(c) == d,
{
    let b: u8 = 48u8 + (d as u8);
    b as char
}

pub fn char_digit(c: char) -> (d: u64)
    requires
        is_digit(c),
    ensures
        d == digit_value(c),
        d < 10,
{
    (c as u32 - 48u32) as u64
}

pub fn is_digit_char(c: char) -> (b: bool)
    ensures
        b == is_digit(c),
{
    '0' <= c && c <= '9'
}

pub proof fn lemma_digits_value_nonneg(s: Seq<char>)
    requires
        all_digits(s),
    ensures
        digits_value(s) >= 0,
    decreases s.len(),
{
    if s.len() > 0 {
        lemma_digits_value_nonneg(s.drop_last());
        assert(is_digit(s[s.len() - 1]));
    }
}

/// A longer prefix of a digit string never has a smaller value.
pub proof fn lemma_digits_prefix_monotone(s: Seq<char>, i: int, j: int)
    requires
        all_digits(s),
        0 <= i <= j <= s.len(),
    ensures
        digits_value(s.take(i)) <= digits_value(s.take(j)),
    decreases j - i,
{
    if i < j {
        lemma_digits_prefix_monotone(s, i, j - 1);
        assert(s.take(j).drop_last() =~= s.take(j - 1));
        assert(all_digits(s.take(j - 1)));
        lemma_digits_value_nonneg(s.take(j - 1));
        assert(is_digit(s[j - 1]));
    }
}

/// Leading zeros do not change a value.
pub proof fn lemma_zeros_prefix(k: nat, s: Seq<char>)
    ensures
        digits_value(zeros(k) + s) == digits_value(s),
    decreases s.len(), k,
{
    if s.len() == 0 {
        assert(zeros(k) + s =~= zeros(k));
        if k > 0 {
            assert(zeros(k).drop_last() =~= zeros((k - 1) as nat));
            lemma_zeros_prefix((k - 1) as nat, s);
            assert(zeros((k - 1) as nat) + s =~= zeros((k - 1) as nat));
        }
    } else {
        assert((zeros(k) + s).drop_last() =~= zeros(k) + s.drop_last());
        lemma_zeros_prefix(k, s.drop_last());
    }
}

pub proof fn lemma_digit_roundtrip(d: int)
    requires
        0 <= d < 10,
    ensures
        is_digit(digit_char(d)),
        digit_value(digit_char(d)) == d,
{
    assert(((d + 48) as char) as int == d + 48);
}

pub proof fn lemma_decimal(n: nat)
    ensures
        all_digits(decimal(n)),
        digits_value(decimal(n)) == n,
        1 <= decimal(n).len(),
        n < 10 <==> decimal(n).len() == 1,
        n < 100 ==> decimal(n).len() <= 2,
        n < 1000 ==> decimal(n).len() <= 3,
        decimal(n).len() <= n + 1,
    decreases n,
{
    lemma_digit_roundtrip((n % 10) as int);
    if n >= 10 {
        lemma_decimal(n / 10);
        let d = decimal(n);
        assert(d.drop_last() =~= decimal(n / 10));
        assert(d.last() == digit_char((n % 10) as int));
        assert(digits_value(d) == digits_value(d.drop_last()) * 10 + digit_value(d.last()));
        assert(n == (n / 10) * 10 + n % 10);
    } else {
        let d = decimal(n);
        assert(d.drop_last() =~= Seq::<char>::empty());
        assert(d.last() == digit_char(n as int));
        assert(digits_value(d) == digits_value(d.drop_last()) * 10 + digit_value(d.last()));
    }
}

pub proof fn lemma_zero_pad(n: nat, w: nat)
    ensures
        all_digits(zero_pad(n, w)),
        digits_value(zero_pad(n, w)) == n,
        zero_pad(n, w).len() >= w,
        n < 10 && w == 2 ==> zero_pad(n, w).len() == 2,
        n < 100 && w == 2 ==> zero_pad(n, w).len() == 2,
        n < 1000 && w == 3 ==> zero_pad(n, w).len() == 3,
{
    lemma_decimal(n);
    if decimal(n).len() < w {
        let k = (w - decimal(n).len()) as nat;
        lemma_zeros_prefix(k, decimal(n));
        assert forall|i: int| 0 <= i < zero_pad(n, w).len() implies is_digit(
            #[trigger] zero_pad(n, w)[i],
        ) by {
            if i >= k {
                assert(zero_pad(n, w)[i] == decimal(n)[i - k]);
            }
        }
    }
}

/// The number of characters of `decimal(n)`.
pub fn decimal_len(n: u64) -> (r: u64)
    ensures
        r == decimal(n as nat).len(),
    decreases n,
{
    if n < 10 {
        1
    } else {
        let k = decimal_len(n / 10);
        proof {
            lemma_decimal((n / 10) as nat);
        }
        assert(decimal(n as nat) == decimal((n / 10) as nat).push(digit_char((n % 10) as int)));
        k + 1
    }
}

/// Appends `decimal(n)` to a string.
pub fn push_decimal(out: &mut String, n: u64)
    ensures
        final(out)@ == old(out)@ + decimal(n as nat),
    decreases n,
{
    if n < 10 {
        let c = digit_to_char(n);
        push_char(out, c);
        assert(out@ =~= old(out)@ + decimal(n as nat));
    } else {
        push_decimal(out, n / 10);
        let c = digit_to_char(n % 10);
        push_char(out, c);
        assert(out@ =~= old(out)@ + decimal(n as nat));
    }
}

/// Appends `zero_pad(n, w)` to a string.
pub fn push_padded(out: &mut String, n: u64, w: u64)
    ensures
        final(out)@ == old(out)@ + zero_pad(n as nat, w as nat),
{
    let len = decimal_len(n);
    let mut k: u64 = 0;
    if len < w {
        while k < w - len
            invariant
                len < w,
                k <= w - len,
                out@ == old(out)@ + zeros(k as nat),
            decreases w - len - k,
        {
            push_char(out, '0');
            assert(out@ =~= old(out)@ + zeros((k + 1) as nat));
            k += 1;
        }
    }
    push_decimal(out, n);
    assert(out@ =~= old(out)@ + zero_pad(n as nat, w as nat));
}

/// The value of the digit string `v[lo..hi]`, or `None` when it exceeds
/// `i64::MAX` (where `str::parse::<i64>` fails).
pub fn digits_to_i64(v: &Vec<char>, lo: usize, hi: usize) -> (r: Option<i64>)
    requires
        lo <= hi <= v.len(),
        all_digits(v@.subrange(lo as int, hi as int)),
    ensures
        match r {
            Some(x) => x == digits_value(v@.subrange(lo as int, hi as int)),
            None => digits_value(v@.subrange(lo as int, hi as int)) > i64::MAX,
        },
{
    let ghost s = v@.subrange(lo as int, hi as int);
    let mut acc: i64 = 0;
    let mut i = lo;
    assert(s.take(0) =~= Seq::<char>::empty());
    while i < hi
        invariant
            lo <= i <= hi <= v.len(),
            s == v@.subrange(lo as int, hi as int),
            all_digits(s),
            acc == digits_value(s.take(i - lo)),
            acc >= 0,
        decreases hi - i,
    {
        assert(s[i - lo] == v@[i as int]);
        let d = char_digit(v[i]);
        assert(s.take(i - lo + 1).drop_last() =~= s.take(i - lo));
        if acc > (i64::MAX - d as i64) / 10 {
            proof {
                lemma_digits_prefix_monotone(s, i - lo + 1, s.len() as int);
                assert(s.take(s.len() as int) =~= s);
            }
            return None;
        }
        acc = acc * 10 + d as i64;
        i += 1;
    }
    assert(s.take(hi - lo) =~= s);
    Some(acc)
}

} // verus!
