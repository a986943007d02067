//! Source-line snippets: a line with its surrounding whitespace removed,
//! cut to a bounded number of characters.
use vstd::prelude::*;
use vstd::string::StrSliceExecFns;

verus! {

/// Longest snippet kept for one line, in characters.
pub const SNIPPET_MAX: usize = 100;

/// The characters with the Unicode `White_Space` property, which is what
/// `char::is_whitespace` tests.
pub open spec fn is_ws(c: char) -> bool {
    ('\u{9}' <= c && c <= '\u{d}') || c == ' ' || c == '\u{85}' || c == '\u{a0}'
        || c == '\u{1680}' || ('\u{2000}' <= c && c <= '\u{200a}') || c == '\u{2028}'
        || c == '\u{2029}' || c == '\u{202f}' || c == '\u{205f}' || c == '\u{3000}'
}

/// `s` without its leading whitespace.
pub open spec fn trim_start(s: Seq<char>) -> Seq<char>
    decreases s.len(),
{
    if s.len() > 0 && is_ws(s[0]) {
        trim_start(s.drop_first())
    } else {
        s
    }
}

/// `s` without its trailing whitespace.
pub open spec fn trim_end(s: Seq<char>) -> Seq<char>
    decreases s.len(),
{
    if s.len() > 0 && is_ws(s.last()) {
        trim_end(s.drop_last())
    } else {
        s
    }
}

/// `s` without leading and trailing whitespace.
pub open spec fn trimmed(s: Seq<char>) -> Seq<char> {
    trim_end(trim_start(s))
}

/// At most the first `SNIPPET_MAX` characters of `s`.
pub open spec fn cut(s: Seq<char>) -> Seq<char> {
    if s.len() <= SNIPPET_MAX {
        s
    } else {
        s.take(SNIPPET_MAX as int)
    }
}

/// The snippet stored for a source line.
pub open spec fn snippet_of(line: Seq<char>) -> Seq<char> {
    cut(trimmed(line))
}

/// Relies on `str::trim`: removes leading and trailing characters for which
/// `char::is_whitespace` holds, and nothing else.
#[verifier::external_body]
fn trim(s: &str) -> (r: &str)
    ensures
        r@ == trimmed(s@),
{
    s.trim()
}

/// The trimmed line, cut to at most `SNIPPET_MAX` characters (characters,
/// not bytes).
pub fn snippet(line: &str) -> (r: String)
    ensures
        r@ == snippet_of(line@),
        trimmed(line@).len() > SNIPPET_MAX ==> r@ == trimmed(line@).take(SNIPPET_MAX as int),
        trimmed(line@).len() <= SNIPPET_MAX ==> r@ == trimmed(line@),
{
    let t = trim(line);
    let n = t.unicode_len();
    let k: usize = if n > SNIPPET_MAX {
        SNIPPET_MAX
    } else {
        n
    };
    let part = t.substring_char(0, k);
    let r = part.to_owned();
    assert(r@ =~= snippet_of(line@));
    r
}

pub open spec fn all_ws(s: Seq<char>) -> bool {
    forall|i: int| 0 <= i < s.len() ==> is_ws(#[trigger] s[i])
}

proof fn lemma_trim_start_prefix(a: Seq<char>, x: Seq<char>)
    requires
        all_ws(a),
    ensures
        trim_start(a + x) == trim_start(x),
    decreases a.len(),
{
    if a.len() > 0 {
        assert((a + x).drop_first() =~= a.drop_first() + x);
        assert((a + x)[0] == a[0]);
        assert(all_ws(a.drop_first())) by {
            assert forall|i: int| 0 <= i < a.drop_first().len() implies is_ws(#[trigger] a.drop_first()[i]) by {
                assert(a.drop_first()[i] == a[i + 1]);
            }
        }
        lemma_trim_start_prefix(a.drop_first(), x);
    } else {
        assert(a + x =~= x);
    }
}

proof fn lemma_trim_end_suffix(x: Seq<char>, b: Seq<char>)
    requires
        all_ws(b),
    ensures
        trim_end(x + b) == trim_end(x),
    decreases b.len(),
{
    if b.len() > 0 {
        assert((x + b).drop_last() =~= x + b.drop_last());
        assert((x + b).last() == b.last());
        assert(all_ws(b.drop_last())) by {
            assert forall|i: int| 0 <= i < b.drop_last().len() implies is_ws(#[trigger] b.drop_last()[i]) by {
                assert(b.drop_last()[i] == b[i]);
            }
        }
        lemma_trim_end_suffix(x, b.drop_last());
    } else {
        assert(x + b =~= x);
    }
}

proof fn lemma_trim_start_append(s: Seq<char>, b: Seq<char>)
    requires
        !all_ws(s),
    ensures
        trim_start(s + b) == trim_start(s) + b,
    decreases s.len(),
{
    assert((s + b)[0] == s[0]);
    if is_ws(s[0]) {
        assert((s + b).drop_first() =~= s.drop_first() + b);
        assert(!all_ws(s.drop_first())) by {
            let i = choose|i: int| 0 <= i < s.len() && !is_ws(s[i]);
            assert(s.drop_first()[i - 1] == s[i]);
        }
        lemma_trim_start_append(s.drop_first(), b);
    }
}

/// Whitespace around a line does not change its snippet.
pub proof fn lemma_snippet_ignores_surrounding_ws(a: Seq<char>, s: Seq<char>, b: Seq<char>)
    requires
        all_ws(a),
        all_ws(b),
    ensures
        snippet_of(a + s + b) == snippet_of(s),
{
    assert(a + s + b =~= a + (s + b));
    lemma_trim_start_prefix(a, s + b);
    if all_ws(s) {
        lemma_trim_start_prefix(s, b);
        lemma_trim_start_prefix(b, Seq::<char>::empty());
        lemma_trim_start_prefix(s, Seq::<char>::empty());
        assert(b + Seq::<char>::empty() =~= b);
        assert(s + Seq::<char>::empty() =~= s);
    } else {
        lemma_trim_start_append(s, b);
        lemma_trim_end_suffix(trim_start(s), b);
    }
}

} // verus!
