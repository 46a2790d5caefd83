//! Parsing does not depend on how lines end, nor on a leading byte-order mark.

use vstd::prelude::*;
use crate::laws_text::{has_no, lemma_crlf_identity};
use crate::parse::parse_model;
use crate::text::{crlf_to_lf, normalize, strip_bom};

verus! {

/// `s` with every `\n` written as `\r\n`.
pub open spec fn lf_to_crlf(s: Seq<char>) -> Seq<char>
    decreases s.len(),
{
    if s.len() == 0 {
        s
    } else if s[0] == '\n' {
        seq!['\r', '\n'] + lf_to_crlf(s.skip(1))
    } else {
        seq![s[0]] + lf_to_crlf(s.skip(1))
    }
}

/// Texts that are alike once the byte-order mark is dropped and line endings
/// are made `\n` parse alike.
pub proof fn lemma_parse_normalized(a: Seq<char>, b: Seq<char>)
    requires
        normalize(a) == normalize(b),
    ensures
        parse_model(a) == parse_model(b),
{
}

/// Line-ending normalization turns CRLF endings back into the LF text.
pub proof fn lemma_crlf_undone(s: Seq<char>)
    requires
        has_no(s, '\r'),
    ensures
        crlf_to_lf(lf_to_crlf(s)) == s,
    decreases s.len(),
{
    if s.len() > 0 {
        let rest = s.skip(1);
        assert(has_no(rest, '\r')) by {
            assert forall|i: int| 0 <= i < rest.len() implies rest[i] != '\r' by {
                assert(rest[i] == s[i + 1]);
            }
        }
        lemma_crlf_undone(rest);
        let t = lf_to_crlf(s);
        if s[0] == '\n' {
            assert(t.skip(2) =~= lf_to_crlf(rest));
            assert(t[0] == '\r' && t[1] == '\n');
        } else {
            assert(t.skip(1) =~= lf_to_crlf(rest));
            assert(t[0] == s[0]);
        }
        assert(seq![s[0]] + rest =~= s);
    }
}

/// CRLF endings keep a leading byte-order mark where it was.
proof fn lemma_crlf_strip_bom(s: Seq<char>)
    ensures
        strip_bom(lf_to_crlf(s)) == lf_to_crlf(strip_bom(s)),
{
    if s.len() > 0 {
        let t = lf_to_crlf(s);
        if s[0] == '\n' {
            assert(t[0] == '\r');
        } else {
            assert(t[0] == s[0]);
            if s[0] == '\u{feff}' {
                assert(t.skip(1) =~= lf_to_crlf(s.skip(1)));
            }
        }
    }
}

/// Parsing text with CRLF line endings gives what parsing it with LF line
/// endings gives.
pub proof fn lemma_parse_crlf(s: Seq<char>)
    requires
        has_no(s, '\r'),
    ensures
        parse_model(lf_to_crlf(s)) == parse_model(s),
{
    let b = strip_bom(s);
    assert(has_no(b, '\r')) by {
        assert forall|i: int| 0 <= i < b.len() implies b[i] != '\r' by {
            if s.len() > 0 && s[0] == '\u{feff}' {
                assert(b[i] == s[i + 1]);
            }
        }
    }
    lemma_crlf_strip_bom(s);
    lemma_crlf_undone(b);
    lemma_crlf_identity(b);
    assert(normalize(lf_to_crlf(s)) == normalize(s));
    lemma_parse_normalized(lf_to_crlf(s), s);
}

/// Parsing text behind a byte-order mark gives what parsing the text gives,
/// unless the text itself starts with one (only one mark is dropped).
pub proof fn lemma_parse_bom(s: Seq<char>)
    requires
        s.len() == 0 || s[0] != '\u{feff}',
    ensures
        parse_model(seq!['\u{feff}'] + s) == parse_model(s),
{
    assert((seq!['\u{feff}'] + s).skip(1) =~= s);
    assert(normalize(seq!['\u{feff}'] + s) == normalize(s));
    lemma_parse_normalized(seq!['\u{feff}'] + s, s);
}

} // verus!
