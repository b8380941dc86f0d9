//! Naming rules for exporting albums and groups to folders on disk.

use vstd::prelude::*;
use vstd::string::*;
use crate::text::{nat_text, nat_to_text, push_chars, push_str, chars_of, string_of, trim_chars, trim_start_matches_char, trim_end_matches_char, trim_spec, trim_char, trim_start_char, trim_end_char, first_non_ws, end_non_ws, is_white_space};

verus! {

/// Unicode general category Cc (`char::is_control`): U+0000..=U+001F and
/// U+007F..=U+009F.
pub open spec fn is_control_spec(c: char) -> bool {
    (c as u32) <= 0x1f || (0x7f <= (c as u32) && (c as u32) <= 0x9f)
}

/// Whether `c` is a control character (general category Cc).
pub fn is_control(c: char) -> (b: bool)
    ensures
        b == is_control_spec(c),
{
    let v = c as u32;
    v <= 0x1f || (0x7f <= v && v <= 0x9f)
}

/// Characters that cannot appear in a folder name component.
pub open spec fn is_forbidden_in_name(c: char) -> bool {
    c == '/' || c == '\\' || c == ':' || c == '*' || c == '?' || c == '"' || c == '<' || c == '>'
        || c == '|' || c == '\0' || is_control_spec(c)
}

/// `s` with every forbidden character replaced by `-`.
pub open spec fn replace_forbidden(s: Seq<char>) -> Seq<char> {
    Seq::new(s.len(), |i: int| if is_forbidden_in_name(s[i]) { '-' } else { s[i] })
}

/// The folder name for an album/group name: forbidden characters become `-`,
/// surrounding whitespace and dots are trimmed, and an empty result becomes
/// `Untitled`.
pub open spec fn sanitized_name(s: Seq<char>) -> Seq<char> {
    let t = trim_spec(trim_char(trim_spec(replace_forbidden(s)), '.'));
    if t.len() == 0 {
        "Untitled"@
    } else {
        t
    }
}

/// Sanitise an album/group name into a single safe folder-name component.
pub fn sanitize_component(name: &str) -> (r: String)
    ensures
        r@ == sanitized_name(name@),
{
    let v = chars_of(name);
    let mut cleaned: Vec<char> = Vec::new();
    let mut k: usize = 0;
    while k < v.len()
        invariant
            v@ == name@,
            k <= v@.len(),
            cleaned@ == replace_forbidden(v@).take(k as int),
        decreases v@.len() - k,
    {
        let c = v[k];
        let bad = c == '/' || c == '\\' || c == ':' || c == '*' || c == '?' || c == '"' || c == '<'
            || c == '>' || c == '|' || c == '\0' || is_control(c);
        if bad {
            cleaned.push('-');
        } else {
            cleaned.push(c);
        }
        proof {
            assert(replace_forbidden(v@).take(k + 1) =~= replace_forbidden(v@).take(k as int).push(
                cleaned@.last(),
            ));
        }
        k = k + 1;
    }
    proof {
        assert(replace_forbidden(v@).take(v@.len() as int) =~= replace_forbidden(v@));
    }
    let t1 = trim_chars(&cleaned);
    let t2 = trim_start_matches_char(&t1, '.');
    let t3 = trim_end_matches_char(&t2, '.');
    let t4 = trim_chars(&t3);
    if t4.len() == 0 {
        String::from_str("Untitled")
    } else {
        string_of(&t4)
    }
}

proof fn lemma_trim_subset(s: Seq<char>)
    ensures
        forall|a: int| 0 <= a < trim_spec(s).len() ==> s.contains(#[trigger] trim_spec(s)[a]),
{
    let p = first_non_ws(s);
    lemma_first_non_ws_range_pub(s);
    let t = s.skip(p);
    lemma_end_non_ws_range_pub(t);
    assert forall|a: int| 0 <= a < trim_spec(s).len() implies s.contains(trim_spec(s)[a]) by {
        assert(trim_spec(s)[a] == s[a + p]);
    }
}

proof fn lemma_first_non_ws_range_pub(s: Seq<char>)
    ensures
        0 <= first_non_ws(s) <= s.len(),
    decreases s.len(),
{
    if s.len() > 0 && is_white_space(s[0]) {
        lemma_first_non_ws_range_pub(s.drop_first());
    }
}

proof fn lemma_end_non_ws_range_pub(s: Seq<char>)
    ensures
        0 <= end_non_ws(s) <= s.len(),
    decreases s.len(),
{
    if s.len() > 0 && is_white_space(s.last()) {
        lemma_end_non_ws_range_pub(s.drop_last());
    }
}

proof fn lemma_trim_start_char_subset(s: Seq<char>, c: char)
    ensures
        forall|a: int|
            0 <= a < trim_start_char(s, c).len() ==> s.contains(#[trigger] trim_start_char(s, c)[a]),
    decreases s.len(),
{
    if s.len() > 0 && s[0] == c {
        lemma_trim_start_char_subset(s.drop_first(), c);
        assert forall|a: int| 0 <= a < trim_start_char(s, c).len() implies s.contains(
            trim_start_char(s, c)[a],
        ) by {
            assert(trim_start_char(s, c) == trim_start_char(s.drop_first(), c));
            let x = trim_start_char(s.drop_first(), c)[a];
            assert(s.drop_first().contains(x));
            let b = choose|b: int| 0 <= b < s.drop_first().len() && s.drop_first()[b] == x;
            assert(s[b + 1] == x);
        }
    }
}

proof fn lemma_trim_end_char_subset(s: Seq<char>, c: char)
    ensures
        forall|a: int|
            0 <= a < trim_end_char(s, c).len() ==> s.contains(#[trigger] trim_end_char(s, c)[a]),
    decreases s.len(),
{
    if s.len() > 0 && s.last() == c {
        lemma_trim_end_char_subset(s.drop_last(), c);
        assert forall|a: int| 0 <= a < trim_end_char(s, c).len() implies s.contains(
            trim_end_char(s, c)[a],
        ) by {
            assert(trim_end_char(s, c) == trim_end_char(s.drop_last(), c));
            let x = trim_end_char(s.drop_last(), c)[a];
            assert(s.drop_last().contains(x));
            let b = choose|b: int| 0 <= b < s.drop_last().len() && s.drop_last()[b] == x;
            assert(s[b] == x);
        }
    }
}

/// A sanitised name is never empty and never holds a forbidden character.
pub proof fn lemma_sanitized_name_is_safe(s: Seq<char>)
    ensures
        sanitized_name(s).len() > 0,
        forall|a: int|
            0 <= a < sanitized_name(s).len() ==> !is_forbidden_in_name(
                #[trigger] sanitized_name(s)[a],
            ),
        forall|a: int|
            0 <= a < sanitized_name(s).len() ==> {
                let c = #[trigger] sanitized_name(s)[a];
                &&& c != '/' && c != '\\' && c != ':' && c != '*' && c != '?'
                &&& c != '"' && c != '<' && c != '>' && c != '|' && c != '\0'
                &&& (c as u32) >= 0x20 && !(0x7f <= (c as u32) && (c as u32) <= 0x9f)
            },
{
    let c = replace_forbidden(s);
    let t1 = trim_spec(c);
    let t2 = trim_start_char(t1, '.');
    let t3 = trim_end_char(t2, '.');
    let t4 = trim_spec(t3);
    lemma_trim_subset(c);
    lemma_trim_start_char_subset(t1, '.');
    lemma_trim_end_char_subset(t2, '.');
    lemma_trim_subset(t3);
    if t4.len() == 0 {
        reveal_strlit("Untitled");
        assert forall|a: int| 0 <= a < sanitized_name(s).len() implies !is_forbidden_in_name(
            sanitized_name(s)[a],
        ) by {
            assert(sanitized_name(s) == "Untitled"@);
        }
    } else {
        assert forall|a: int| 0 <= a < t4.len() implies !is_forbidden_in_name(t4[a]) by {
            let x = t4[a];
            assert(t3.contains(x));
            assert(t2.contains(x));
            assert(t1.contains(x));
            assert(c.contains(x));
            let b = choose|b: int| 0 <= b < c.len() && c[b] == x;
            assert(c[b] == (if is_forbidden_in_name(s[b]) { '-' } else { s[b] }));
        }
    }
}


/// The `n`-th alternative name for a file whose name is taken: the stem, a
/// space and `n` in parentheses, then the extension after a dot when there
/// is one (`photo (1).jpg`).
pub open spec fn numbered_name_spec(stem: Seq<char>, ext: Option<Seq<char>>, n: nat) -> Seq<char> {
    let base = stem + " ("@ + nat_text(n) + ")"@;
    match ext {
        Some(e) => base + "."@ + e,
        None => base,
    }
}

/// The `n`-th alternative name for a file whose name is taken.
pub fn numbered_name(stem: &str, ext: Option<&str>, n: u32) -> (r: String)
    ensures
        r@ == numbered_name_spec(
            stem@,
            match ext {
                Some(e) => Some(e@),
                None => None,
            },
            n as nat,
        ),
{
    let mut v: Vec<char> = Vec::new();
    push_str(&mut v, stem);
    push_str(&mut v, " (");
    let digits = nat_to_text(n as u64);
    push_chars(&mut v, &digits);
    push_str(&mut v, ")");
    if let Some(e) = ext {
        push_str(&mut v, ".");
        push_str(&mut v, e);
    }
    proof {
        let base = stem@ + " ("@ + nat_text(n as nat) + ")"@;
        match ext {
            Some(e) => {
                assert(v@ =~= base + "."@ + e@);
            },
            None => {
                assert(v@ =~= base);
            },
        }
    }
    string_of(&v)
}


/// Ordinary names are kept as they are: a non-empty name of ASCII letters
/// and digits, possibly with single spaces between words, is its own folder
/// name.
pub proof fn lemma_plain_name_kept(w: Seq<char>)
    requires
        w.len() > 0,
        forall|i: int| 0 <= i < w.len() ==> crate::search::is_ascii_word_char(#[trigger] w[i]) || w[i] == ' ',
        w[0] != ' ',
        w.last() != ' ',
    ensures
        sanitized_name(w) == w,
{
    let c = replace_forbidden(w);
    assert forall|i: int| 0 <= i < w.len() implies !is_forbidden_in_name(#[trigger] w[i]) by {
        assert(crate::search::is_ascii_word_char(w[i]) || w[i] == ' ');
    }
    assert(c =~= w);
    assert(!is_white_space(w[0]));
    assert(!is_white_space(w.last()));
    assert(crate::text::trim_start_spec(w) =~= w);
    assert(crate::text::trim_end_spec(w) =~= w);
    assert(trim_spec(w) == w);
    assert(w[0] != '.');
    assert(w.last() != '.');
    assert(trim_start_char(w, '.') == w);
    assert(trim_end_char(w, '.') == w);
    assert(trim_char(w, '.') == w);
}

} // verus!
