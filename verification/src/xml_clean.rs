//! XML cleanup for PPTX internal XML files.
//!
//! Strips XML comments (`<!-- ... -->`) to reduce file size.
//! Does NOT modify whitespace — PPTX text content (in `<a:t>` elements)
//! may contain significant whitespace that must be preserved.

use vstd::prelude::*;
use vstd::utf8::encode_utf8;
use crate::text::{chars_of, is_word, same_word, string_from_chars};

verus! {

/// A comment opener `<!--` starts at index `i`.
pub open spec fn opens_comment(s: Seq<char>, i: int) -> bool {
    &&& 0 <= i
    &&& i + 3 < s.len()
    &&& s[i] == '<'
    &&& s[i + 1] == '!'
    &&& s[i + 2] == '-'
    &&& s[i + 3] == '-'
}

/// A comment closer `-->` starts at index `k`.
pub open spec fn closes_comment(s: Seq<char>, k: int) -> bool {
    &&& 0 <= k
    &&& k + 2 < s.len()
    &&& s[k] == '-'
    &&& s[k + 1] == '-'
    &&& s[k + 2] == '>'
}

/// Where scanning resumes after a comment body that starts at `k`: just past the first `-->`
/// at or after `k`, or `None` when the comment is never closed.
pub open spec fn resume_after_comment(s: Seq<char>, k: int) -> Option<int>
    decreases s.len() - k,
{
    if 0 <= k && k + 2 < s.len() {
        if closes_comment(s, k) {
            Some(k + 3)
        } else {
            resume_after_comment(s, k + 1)
        }
    } else {
        None
    }
}

/// The text from index `i` on with comments removed. Characters outside comments are kept in
/// order; each `<!-- ... -->` span is dropped; a comment that is never closed drops everything
/// from its opener to the end.
pub open spec fn strip_from(s: Seq<char>, i: int) -> Seq<char>
    decreases s.len() - i,
{
    if i < 0 || i >= s.len() {
        Seq::empty()
    } else if opens_comment(s, i) {
        match resume_after_comment(s, i + 4) {
            Some(j) => {
                proof {
                    lemma_resume_bounds(s, i + 4);
                }
                strip_from(s, j)
            },
            None => Seq::empty(),
        }
    } else {
        seq![s[i]] + strip_from(s, i + 1)
    }
}

/// The whole text with its comments removed.
pub open spec fn strip_comments_spec(s: Seq<char>) -> Seq<char> {
    strip_from(s, 0)
}

/// A closed comment resumes at least three characters further on, within the text.
pub proof fn lemma_resume_bounds(s: Seq<char>, k: int)
    requires
        0 <= k,
    ensures
        resume_after_comment(s, k) matches Some(j) ==> k + 3 <= j <= s.len(),
    decreases s.len() - k,
{
    if k + 2 < s.len() && !closes_comment(s, k) {
        lemma_resume_bounds(s, k + 1);
    }
}

/// Strip XML comments (`<!-- ... -->`). Preserves all other content including whitespace.
pub fn strip_comments(xml: &str) -> (r: String)
    ensures
        r@ == strip_comments_spec(xml@),
{
    let chars = chars_of(xml);
    let len = chars.len();
    let mut result: Vec<char> = Vec::new();
    let mut i: usize = 0;
    while i < len
        invariant
            len == chars@.len(),
            chars@ == xml@,
            i <= len,
            strip_from(chars@, 0) == result@ + strip_from(chars@, i as int),
        decreases len - i,
    {
        if len - i > 3 && chars[i] == '<' && chars[i + 1] == '!' && chars[i + 2] == '-'
            && chars[i + 3] == '-' {
            let ghost start = i as int;
            let mut k = i + 4;
            let mut closed = false;
            while len - k > 2
                invariant_except_break
                    start + 4 <= k <= len,
                    resume_after_comment(chars@, start + 4) == resume_after_comment(
                        chars@,
                        k as int,
                    ),
                    !closed,
                invariant
                    len == chars@.len(),
                ensures
                    closed ==> resume_after_comment(chars@, start + 4) == Some(k as int),
                    !closed ==> resume_after_comment(chars@, start + 4) is None,
                decreases len - k,
            {
                if chars[k] == '-' && chars[k + 1] == '-' && chars[k + 2] == '>' {
                    closed = true;
                    k = k + 3;
                    break;
                }
                k = k + 1;
            }
            proof {
                lemma_resume_bounds(chars@, start + 4);
            }
            assert(opens_comment(chars@, i as int));
            if !closed {
                assert(strip_from(chars@, i as int) =~= Seq::<char>::empty());
                assert(result@ + Seq::<char>::empty() =~= result@);
                return string_from_chars(result.as_slice());
            }
            assert(strip_from(chars@, i as int) == strip_from(chars@, k as int));
            i = k;
            continue;
        }
        assert(strip_from(chars@, i as int) == seq![chars@[i as int]] + strip_from(
            chars@,
            i + 1,
        ));
        let ghost before = result@;
        result.push(chars[i]);
        assert(result@ + strip_from(chars@, i + 1) =~= before + (seq![chars@[i as int]]
            + strip_from(chars@, i + 1)));
        i = i + 1;
    }
    assert(strip_from(chars@, i as int) =~= Seq::<char>::empty());
    assert(result@ + Seq::<char>::empty() =~= result@);
    string_from_chars(result.as_slice())
}

/// The comment-stripped text, when it is shorter in UTF-8 bytes than the input (the only case
/// in which a cleaned file is written back). Byte lengths are those of `str::len`.
pub fn cleaned_xml(content: &str) -> (r: Option<String>)
    ensures
        r is Some <==> (encode_utf8(strip_comments_spec(content@)).len() as usize) < (encode_utf8(
            content@,
        ).len() as usize),
        r matches Some(c) ==> c@ == strip_comments_spec(content@),
{
    let cleaned = strip_comments(content);
    if cleaned.as_str().len() < content.len() {
        Some(cleaned)
    } else {
        None
    }
}

/// The file extensions whose files are cleaned: `xml` and `rels`, in any ASCII case.
pub open spec fn is_xml_part_spec(ext: Seq<char>) -> bool {
    same_word(ext, seq!['x', 'm', 'l']) || same_word(ext, seq!['r', 'e', 'l', 's'])
}

/// Whether a file with this extension is an XML part that gets its comments stripped.
pub fn is_xml_part(ext: &str) -> (r: bool)
    ensures
        r == is_xml_part_spec(ext@),
{
    let v = chars_of(ext);
    is_word(&v, &['x', 'm', 'l']) || is_word(&v, &['r', 'e', 'l', 's'])
}

/// Text without any comment opener passes through comment stripping unchanged.
pub proof fn law_strip_identity_without_comments(s: Seq<char>)
    requires
        forall|i: int| !opens_comment(s, i),
    ensures
        strip_comments_spec(s) == s,
{
    lemma_strip_from_identity(s, 0);
    assert(s.subrange(0, s.len() as int) =~= s);
}

proof fn lemma_strip_from_identity(s: Seq<char>, i: int)
    requires
        0 <= i <= s.len(),
        forall|k: int| !opens_comment(s, k),
    ensures
        strip_from(s, i) == s.subrange(i, s.len() as int),
    decreases s.len() - i,
{
    if i < s.len() {
        assert(!opens_comment(s, i));
        lemma_strip_from_identity(s, i + 1);
        assert(s.subrange(i, s.len() as int) =~= seq![s[i]] + s.subrange(i + 1, s.len() as int));
    } else {
        assert(s.subrange(i, s.len() as int) =~= Seq::<char>::empty());
    }
}

/// Comment stripping never makes the text longer.
pub proof fn law_strip_never_longer(s: Seq<char>)
    ensures
        strip_comments_spec(s).len() <= s.len(),
{
    lemma_strip_from_len(s, 0);
}

proof fn lemma_strip_from_len(s: Seq<char>, i: int)
    requires
        0 <= i,
    ensures
        strip_from(s, i).len() <= if i <= s.len() { s.len() - i } else { 0 },
    decreases s.len() - i,
{
    if i < s.len() {
        if opens_comment(s, i) {
            lemma_resume_bounds(s, i + 4);
            if let Some(j) = resume_after_comment(s, i + 4) {
                lemma_strip_from_len(s, j);
            }
        } else {
            lemma_strip_from_len(s, i + 1);
        }
    }
}

proof fn lemma_shift_resume(a: Seq<char>, y: Seq<char>, k: int)
    requires
        0 <= k,
    ensures
        resume_after_comment(a + y, a.len() + k) == match resume_after_comment(y, k) {
            Some(j) => Some(j + a.len()),
            None => None,
        },
    decreases y.len() - k,
{
    let s = a + y;
    let n = a.len() as int;
    if k + 2 < y.len() {
        assert(s[n + k] == y[k] && s[n + k + 1] == y[k + 1] && s[n + k + 2] == y[k + 2]);
        if !closes_comment(y, k) {
            lemma_shift_resume(a, y, k + 1);
            assert(n + k + 1 == n + (k + 1));
        }
    }
}

proof fn lemma_shift_strip(a: Seq<char>, y: Seq<char>, i: int)
    requires
        0 <= i,
    ensures
        strip_from(a + y, a.len() + i) == strip_from(y, i),
    decreases y.len() - i,
{
    let s = a + y;
    let n = a.len() as int;
    if i < y.len() {
        if i + 3 < y.len() {
            assert(s[n + i] == y[i] && s[n + i + 1] == y[i + 1] && s[n + i + 2] == y[i + 2] && s[n + i + 3]
                == y[i + 3]);
        }
        assert(opens_comment(s, n + i) == opens_comment(y, i));
        if opens_comment(y, i) {
            lemma_shift_resume(a, y, i + 4);
            assert(n + i + 4 == n + (i + 4));
            lemma_resume_bounds(y, i + 4);
            if let Some(j) = resume_after_comment(y, i + 4) {
                lemma_shift_strip(a, y, j);
            }
        } else {
            assert(s[n + i] == y[i]);
            lemma_shift_strip(a, y, i + 1);
            assert(n + i + 1 == n + (i + 1));
        }
    }
}

proof fn lemma_resume_at_close(s: Seq<char>, lo: int, close: int, k: int)
    requires
        lo <= k <= close,
        0 <= lo,
        closes_comment(s, close),
        forall|m: int| lo <= m < close ==> !closes_comment(s, m),
    ensures
        resume_after_comment(s, k) == Some(close + 3),
    decreases close - k,
{
    if k < close {
        lemma_resume_at_close(s, lo, close, k + 1);
    }
}

proof fn lemma_strip_plain_prefix(s: Seq<char>, x: Seq<char>, i: int)
    requires
        0 <= i <= x.len() <= s.len(),
        x == s.take(x.len() as int),
        forall|m: int| 0 <= m < x.len() ==> !opens_comment(s, m),
    ensures
        strip_from(s, i) == x.skip(i) + strip_from(s, x.len() as int),
    decreases x.len() - i,
{
    if i < x.len() {
        lemma_strip_plain_prefix(s, x, i + 1);
        assert(x.skip(i) =~= seq![s[i]] + x.skip(i + 1));
    } else {
        assert(x.skip(i) =~= Seq::<char>::empty());
    }
}

/// A closed comment is removed whole, and scanning goes on right after it: for text `x`
/// without a comment opener, a comment body `c` without `-->` and any text `y`,
/// stripping `x <!--c--> y` gives `x` followed by `y` stripped. So a text made of closed
/// comments and comment-free text comes out without any comment, adjacent comments included.
pub proof fn law_closed_comment_removed(x: Seq<char>, c: Seq<char>, y: Seq<char>)
    requires
        forall|i: int| !opens_comment(x, i),
        forall|k: int| !closes_comment(c, k),
    ensures
        strip_comments_spec(x + seq!['<', '!', '-', '-'] + c + seq!['-', '-', '>'] + y) == x
            + strip_comments_spec(y),
{
    let o = seq!['<', '!', '-', '-'];
    let e = seq!['-', '-', '>'];
    let a = x + o + c + e;
    let s = a + y;
    let nx = x.len() as int;
    let close = nx + 4 + c.len();
    assert(s == x + o + c + e + y);
    assert(a.len() == close + 3);
    assert forall|m: int| 0 <= m < nx implies !opens_comment(s, m) by {
        if m + 3 < nx {
            assert(s[m] == x[m] && s[m + 1] == x[m + 1] && s[m + 2] == x[m + 2] && s[m + 3] == x[m + 3]);
            assert(!opens_comment(x, m));
        } else {
            assert(s[nx] == '<');
            if m + 1 == nx {
                assert(s[m + 1] == '<');
            } else if m + 2 == nx {
                assert(s[m + 2] == '<');
            } else {
                assert(s[m + 3] == '<');
            }
        }
    }
    assert(x == s.take(nx));
    lemma_strip_plain_prefix(s, x, 0);
    assert(x.skip(0) =~= x);
    assert(s[nx] == '<' && s[nx + 1] == '!' && s[nx + 2] == '-' && s[nx + 3] == '-');
    assert(opens_comment(s, nx));
    assert(s[close] == '-' && s[close + 1] == '-' && s[close + 2] == '>');
    assert forall|m: int| nx + 4 <= m < close implies !closes_comment(s, m) by {
        if m + 2 < close {
            let q = m - nx - 4;
            assert(s[m] == c[q] && s[m + 1] == c[q + 1] && s[m + 2] == c[q + 2]);
            assert(!closes_comment(c, q));
        } else if m + 1 == close {
            assert(s[m + 2] == '-');
        } else {
            assert(s[m + 2] == '-');
        }
    }
    lemma_resume_at_close(s, nx + 4, close, nx + 4);
    lemma_shift_strip(a, y, 0);
}

} // verus!
