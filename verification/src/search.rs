//! Full-text query preparation: sanitising type-ahead input for FTS5 and
//! deciding which match expressions a search runs.

use vstd::prelude::*;
use vstd::string::*;
use crate::text::{chars_of, string_of, trim_chars, trim_spec, char_is_whitespace, is_white_space};

verus! {

/// Characters with a meaning in FTS5 query syntax.
pub open spec fn is_fts5_special(c: char) -> bool {
    c == '"' || c == '*' || c == '^' || c == '(' || c == ')' || c == '[' || c == ']' || c == '{'
        || c == '}' || c == '|' || c == '&' || c == '~' || c == '+' || c == ':'
}

fn is_special(c: char) -> (b: bool)
    ensures
        b == is_fts5_special(c),
{
    c == '"' || c == '*' || c == '^' || c == '(' || c == ')' || c == '[' || c == ']' || c == '{'
        || c == '}' || c == '|' || c == '&' || c == '~' || c == '+' || c == ':'
}

/// `s` with every FTS5 special character replaced by a space.
pub open spec fn blank_specials(s: Seq<char>) -> Seq<char> {
    Seq::new(s.len(), |i: int| if is_fts5_special(s[i]) { ' ' } else { s[i] })
}

/// The sanitised prefix query: specials blanked, trimmed, and a trailing `*`
/// added for type-ahead unless the raw input ended with a space; empty when
/// nothing is left.
pub open spec fn sanitized_fts(raw: Seq<char>) -> Seq<char> {
    let t = trim_spec(blank_specials(raw));
    if t.len() == 0 {
        Seq::empty()
    } else if raw.len() > 0 && raw.last() == ' ' {
        t
    } else {
        t.push('*')
    }
}

/// Sanitise free text into a safe FTS5 prefix query.
pub fn sanitize_fts_query(raw: &str) -> (q: String)
    ensures
        q@ == sanitized_fts(raw@),
{
    let v = chars_of(raw);
    let mut replaced: Vec<char> = Vec::new();
    let mut k: usize = 0;
    while k < v.len()
        invariant
            v@ == raw@,
            k <= v@.len(),
            replaced@ == blank_specials(v@).take(k as int),
        decreases v@.len() - k,
    {
        let c = v[k];
        if is_special(c) {
            replaced.push(' ');
        } else {
            replaced.push(c);
        }
        proof {
            assert(blank_specials(v@).take(k + 1) =~= blank_specials(v@).take(k as int).push(
                replaced@.last(),
            ));
        }
        k = k + 1;
    }
    proof {
        assert(blank_specials(v@).take(v@.len() as int) =~= blank_specials(v@));
    }
    let mut t = trim_chars(&replaced);
    if t.len() == 0 {
        return String::new();
    }
    if v.len() > 0 && v[v.len() - 1] == ' ' {
        string_of(&t)
    } else {
        t.push('*');
        string_of(&t)
    }
}

/// A sanitised query holds no FTS5 special character except the trailing
/// type-ahead `*`, never starts with whitespace, and is empty only when the
/// input held nothing but specials and whitespace.
pub proof fn lemma_sanitized_fts_is_safe(raw: Seq<char>)
    ensures
        forall|a: int|
            0 <= a < sanitized_fts(raw).len() && !(a == sanitized_fts(raw).len() - 1
                && sanitized_fts(raw)[a] == '*') ==> !is_fts5_special(
                #[trigger] sanitized_fts(raw)[a],
            ),
        forall|a: int|
            0 <= a < sanitized_fts(raw).len() && !(a == sanitized_fts(raw).len() - 1
                && sanitized_fts(raw)[a] == '*') ==> {
                let c = #[trigger] sanitized_fts(raw)[a];
                &&& c != '"' && c != '*' && c != '^' && c != '(' && c != ')'
                &&& c != '[' && c != ']' && c != '{' && c != '}' && c != '|'
                &&& c != '&' && c != '~' && c != '+' && c != ':'
            },
{
    let b = blank_specials(raw);
    let t = trim_spec(b);
    lemma_trim_within(b);
    assert forall|a: int| 0 <= a < t.len() implies !is_fts5_special(#[trigger] t[a]) by {
        let i = choose|i: int| 0 <= i < b.len() && b[i] == t[a];
        assert(b[i] == (if is_fts5_special(raw[i]) { ' ' } else { raw[i] }));
    }
}

proof fn lemma_trim_within(s: Seq<char>)
    ensures
        forall|a: int|
            0 <= a < trim_spec(s).len() ==> exists|i: int| 0 <= i < s.len() && s[i] == #[trigger] trim_spec(s)[a],
{
    let p = crate::text::first_non_ws(s);
    lemma_first_range(s);
    let t = s.skip(p);
    lemma_end_range(t);
    assert forall|a: int| 0 <= a < trim_spec(s).len() implies exists|i: int|
        0 <= i < s.len() && s[i] == #[trigger] trim_spec(s)[a] by {
        assert(trim_spec(s)[a] == s[a + p]);
    }
}

proof fn lemma_first_range(s: Seq<char>)
    ensures
        0 <= crate::text::first_non_ws(s) <= s.len(),
    decreases s.len(),
{
    if s.len() > 0 && is_white_space(s[0]) {
        lemma_first_range(s.drop_first());
    }
}

proof fn lemma_end_range(s: Seq<char>)
    ensures
        0 <= crate::text::end_non_ws(s) <= s.len(),
    decreases s.len(),
{
    if s.len() > 0 && is_white_space(s.last()) {
        lemma_end_range(s.drop_last());
    }
}

/// The match expressions a full-text search runs, in order: the trimmed input
/// as a full FTS5 expression (when it has whitespace, a quote, a column
/// filter or parentheses), then the sanitised prefix query as the fallback.
pub struct FtsPlan {
    pub expression: Option<String>,
    pub fallback: Option<String>,
}

/// Whether a trimmed query is treated as a full FTS5 expression.
pub open spec fn looks_like_expression(t: Seq<char>) -> bool {
    exists|i: int|
        0 <= i < t.len() && (is_white_space(t[i]) || t[i] == '"' || t[i] == ':' || t[i] == '('
            || t[i] == ')')
}

/// Plan the match expressions for a raw search: nothing for blank input; the
/// trimmed input as an expression when it looks like one; the sanitised
/// prefix query whenever it is not empty.
pub fn fts_plan(raw: &str) -> (p: FtsPlan)
    ensures
        trim_spec(raw@).len() == 0 ==> p.expression is None && p.fallback is None,
        trim_spec(raw@).len() > 0 ==> {
            &&& (p.expression matches Some(e) ==> e@ == trim_spec(raw@))
            &&& (p.expression is Some <==> looks_like_expression(trim_spec(raw@)))
            &&& (p.fallback matches Some(f) ==> f@ == sanitized_fts(raw@))
            &&& (p.fallback is Some <==> sanitized_fts(raw@).len() > 0)
        },
{
    let v = chars_of(raw);
    let t = trim_chars(&v);
    if t.len() == 0 {
        return FtsPlan { expression: None, fallback: None };
    }
    let mut expr = false;
    let mut k: usize = 0;
    while k < t.len()
        invariant
            k <= t@.len(),
            expr <==> exists|i: int|
                0 <= i < k && (is_white_space(t@[i]) || t@[i] == '"' || t@[i] == ':' || t@[i] == '('
                    || t@[i] == ')'),
        decreases t@.len() - k,
    {
        let c = t[k];
        if char_is_whitespace(c) || c == '"' || c == ':' || c == '(' || c == ')' {
            expr = true;
        }
        k = k + 1;
    }
    let expression = if expr {
        Some(string_of(&t))
    } else {
        None
    };
    let q = sanitize_fts_query(raw);
    let qv = chars_of(q.as_str());
    let fallback = if qv.len() == 0 {
        None
    } else {
        Some(q)
    };
    FtsPlan { expression, fallback }
}


/// Whether `c` is an ASCII letter or digit.
pub open spec fn is_ascii_word_char(c: char) -> bool {
    ('a' <= c <= 'z') || ('A' <= c <= 'Z') || ('0' <= c <= '9')
}

/// Words are kept as typed: a non-empty input made of letters and digits
/// becomes that word followed by the type-ahead `*`, and the same word
/// followed by a space becomes the word alone (no type-ahead once the user
/// has finished the word).
pub proof fn lemma_plain_words_kept(w: Seq<char>)
    requires
        w.len() > 0,
        forall|i: int| 0 <= i < w.len() ==> is_ascii_word_char(#[trigger] w[i]),
    ensures
        sanitized_fts(w) == w.push('*'),
        sanitized_fts(w.push(' ')) == w,
{
    assert(blank_specials(w) =~= w);
    lemma_trim_keeps_word(w);
    let ws = w.push(' ');
    let b = blank_specials(ws);
    assert(b =~= ws);
    assert(is_white_space(' '));
    lemma_trim_keeps_word(w);
    assert(ws.drop_last() =~= w);
    assert(crate::text::trim_start_spec(ws) =~= ws) by {
        assert(!is_white_space(ws[0]));
    }
    assert(crate::text::trim_end_spec(ws) == crate::text::trim_end_spec(w)) by {
        assert(crate::text::end_non_ws(ws) == crate::text::end_non_ws(w));
    }
}

proof fn lemma_trim_keeps_word(w: Seq<char>)
    requires
        w.len() > 0,
        forall|i: int| 0 <= i < w.len() ==> is_ascii_word_char(#[trigger] w[i]),
    ensures
        trim_spec(w) == w,
        crate::text::trim_end_spec(w) == w,
        crate::text::trim_start_spec(w) == w,
{
    assert(is_ascii_word_char(w[0]));
    assert(is_ascii_word_char(w.last()));
    assert(!is_white_space(w[0]));
    assert(!is_white_space(w.last()));
    assert(crate::text::trim_start_spec(w) =~= w);
    assert(crate::text::trim_end_spec(w) =~= w);
}


/// Whether `c` is one of the characters FTS5 query syntax gives a meaning.
pub open spec fn fts5_syntax_char(c: char) -> bool {
    c == '"' || c == '*' || c == '^' || c == '(' || c == ')' || c == '[' || c == ']' || c == '{'
        || c == '}' || c == '|' || c == '&' || c == '~' || c == '+' || c == ':'
}

/// The shape of a sanitised query: nothing at all exactly when the input held
/// only whitespace and FTS5 syntax characters; otherwise it starts with a
/// character that is not whitespace, and it ends with the type-ahead `*`
/// right after such a character, unless the input ended with a space, in
/// which case it ends with a non-whitespace character and has no `*` added.
pub proof fn lemma_sanitized_fts_shape(raw: Seq<char>)
    ensures
        sanitized_fts(raw).len() == 0 <==> (forall|i: int|
            0 <= i < raw.len() ==> is_white_space(#[trigger] raw[i]) || fts5_syntax_char(raw[i])),
        sanitized_fts(raw).len() > 0 ==> !is_white_space(sanitized_fts(raw)[0]),
        sanitized_fts(raw).len() > 0 && raw.last() == ' ' && raw.len() > 0 ==> !is_white_space(
            sanitized_fts(raw).last(),
        ),
        sanitized_fts(raw).len() > 0 && !(raw.len() > 0 && raw.last() == ' ') ==> {
            let r = sanitized_fts(raw);
            &&& r.last() == '*'
            &&& r.len() >= 2
            &&& !is_white_space(r[r.len() - 2])
        },
{
    let b = blank_specials(raw);
    let t = trim_spec(b);
    crate::text::lemma_trim_characterized(b);
    assert(is_white_space(' '));
    if t.len() == 0 {
        let (i, j) = choose|i: int, j: int|
            #![trigger b.subrange(i, j)]
            0 <= i <= j <= b.len() && t == b.subrange(i, j) && (forall|a: int|
                0 <= a < i ==> is_white_space(#[trigger] b[a])) && (forall|a: int|
                j <= a < b.len() ==> is_white_space(#[trigger] b[a]));
        assert(i == j);
        assert forall|k: int| 0 <= k < raw.len() implies is_white_space(#[trigger] raw[k])
            || fts5_syntax_char(raw[k]) by {
            assert(is_white_space(b[k]));
            assert(b[k] == (if is_fts5_special(raw[k]) { ' ' } else { raw[k] }));
        }
    } else {
        if forall|k: int| 0 <= k < raw.len() ==> is_white_space(#[trigger] raw[k]) || fts5_syntax_char(raw[k]) {
            assert forall|k: int| 0 <= k < b.len() implies is_white_space(#[trigger] b[k]) by {
                assert(b[k] == (if is_fts5_special(raw[k]) { ' ' } else { raw[k] }));
                assert(is_white_space(raw[k]) || fts5_syntax_char(raw[k]));
            }
        }
        let r = sanitized_fts(raw);
        if !(raw.len() > 0 && raw.last() == ' ') {
            assert(r == t.push('*'));
            assert(r[r.len() - 2] == t.last());
            assert(r[0] == t[0]);
        }
    }
}

} // verus!
