//! Character-level text helpers: conversion between strings and character
//! vectors, Unicode whitespace trimming, case folding and decimal parsing.

use vstd::prelude::*;
use vstd::string::*;

verus! {

/// Characters of `s`, in order.
pub fn chars_of(s: &str) -> (v: Vec<char>)
    ensures
        v@ == s@,
{
    let n = s.unicode_len();
    let mut v: Vec<char> = Vec::new();
    let mut k: usize = 0;
    while k < n
        invariant
            n == s@.len(),
            k <= n,
            v@ == s@.take(k as int),
        decreases n - k,
    {
        v.push(s.get_char(k));
        proof {
            assert(s@.take(k + 1) =~= s@.take(k as int).push(s@[k as int]));
        }
        k = k + 1;
    }
    proof {
        assert(s@.take(n as int) =~= s@);
    }
    v
}

/// The string made of the characters of `v` (`FromIterator<char>` for
/// `String`, which appends each character in order).
#[verifier::external_body]
pub fn string_of(v: &Vec<char>) -> (s: String)
    ensures
        s@ == v@,
{
    v.iter().collect()
}

/// Whether `c` has the Unicode White_Space property, the code points listed
/// under White_Space in the Unicode Character Database (PropList.txt): tab,
/// line feed, line tabulation, form feed, carriage return, space, next line,
/// no-break space, Ogham space mark, the spaces from en quad to hair space,
/// line and paragraph separators, narrow no-break space, medium mathematical
/// space and ideographic space.
pub open spec fn is_white_space(c: char) -> bool {
    let u = c as u32;
    ||| 0x09 <= u <= 0x0d
    ||| u == 0x20
    ||| u == 0x85
    ||| u == 0xa0
    ||| u == 0x1680
    ||| 0x2000 <= u <= 0x200a
    ||| u == 0x2028
    ||| u == 0x2029
    ||| u == 0x202f
    ||| u == 0x205f
    ||| u == 0x3000
}

/// Whether `c` has the Unicode White_Space property (what
/// `char::is_whitespace` answers).
pub fn char_is_whitespace(c: char) -> (b: bool)
    ensures
        b == is_white_space(c),
{
    let u = c as u32;
    (0x09 <= u && u <= 0x0d) || u == 0x20 || u == 0x85 || u == 0xa0 || u == 0x1680 || (0x2000 <= u
        && u <= 0x200a) || u == 0x2028 || u == 0x2029 || u == 0x202f || u == 0x205f || u == 0x3000
}

/// Lowercase mapping of a whole string (`str::to_lowercase`).
pub uninterp spec fn lowercase(s: Seq<char>) -> Seq<char>;

/// `str::to_lowercase`: the Unicode lowercase mapping of the string, each
/// character replaced by its lowercase mapping. The mapping itself (including
/// the context-dependent final sigma) is left to the name `lowercase`; stated
/// here is only that a leading ASCII character that is not an upper-case
/// letter has no lowercase mapping, so it stays the first character.
#[verifier::external_body]
pub fn to_lowercase(s: &str) -> (r: String)
    ensures
        r@ == lowercase(s@),
        s@.len() > 0 && (s@[0] as u32) < 0x80 && !('A' <= s@[0] <= 'Z') ==> r@.len() > 0 && r@[0]
            == s@[0],
{
    s.to_lowercase()
}

/// Index of the first character that is not whitespace (or the length).
pub open spec fn first_non_ws(s: Seq<char>) -> int
    decreases s.len(),
{
    if s.len() == 0 {
        0
    } else if is_white_space(s[0]) {
        1 + first_non_ws(s.drop_first())
    } else {
        0
    }
}

/// Length of the prefix left after dropping trailing whitespace.
pub open spec fn end_non_ws(s: Seq<char>) -> int
    decreases s.len(),
{
    if s.len() == 0 {
        0
    } else if is_white_space(s.last()) {
        end_non_ws(s.drop_last())
    } else {
        s.len() as int
    }
}

/// `str::trim_start`: the string without leading whitespace.
pub open spec fn trim_start_spec(s: Seq<char>) -> Seq<char> {
    s.skip(first_non_ws(s))
}

/// `str::trim_end`: the string without trailing whitespace.
pub open spec fn trim_end_spec(s: Seq<char>) -> Seq<char> {
    s.take(end_non_ws(s))
}

/// `str::trim`: the string without leading and trailing whitespace.
pub open spec fn trim_spec(s: Seq<char>) -> Seq<char> {
    trim_end_spec(trim_start_spec(s))
}

proof fn lemma_first_non_ws_range(s: Seq<char>)
    ensures
        0 <= first_non_ws(s) <= s.len(),
        forall|a: int| 0 <= a < first_non_ws(s) ==> is_white_space(s[a]),
        first_non_ws(s) < s.len() ==> !is_white_space(s[first_non_ws(s)]),
    decreases s.len(),
{
    if s.len() > 0 && is_white_space(s[0]) {
        lemma_first_non_ws_range(s.drop_first());
        assert forall|a: int| 0 <= a < first_non_ws(s) implies is_white_space(s[a]) by {
            if a > 0 {
                assert(s[a] == s.drop_first()[a - 1]);
            }
        }
    }
}

proof fn lemma_end_non_ws_range(s: Seq<char>)
    ensures
        0 <= end_non_ws(s) <= s.len(),
        forall|a: int| end_non_ws(s) <= a < s.len() ==> is_white_space(s[a]),
        end_non_ws(s) > 0 ==> !is_white_space(s[end_non_ws(s) - 1]),
    decreases s.len(),
{
    if s.len() > 0 && is_white_space(s.last()) {
        lemma_end_non_ws_range(s.drop_last());
        assert forall|a: int| end_non_ws(s) <= a < s.len() implies is_white_space(s[a]) by {
            if a < s.len() - 1 {
                assert(s[a] == s.drop_last()[a]);
            }
        }
    }
}

proof fn lemma_first_non_ws_unique(s: Seq<char>, p: int)
    requires
        0 <= p <= s.len(),
        forall|a: int| 0 <= a < p ==> is_white_space(s[a]),
        p < s.len() ==> !is_white_space(s[p]),
    ensures
        first_non_ws(s) == p,
    decreases s.len(),
{
    if s.len() > 0 && p > 0 {
        assert(is_white_space(s[0]));
        assert forall|a: int| 0 <= a < p - 1 implies is_white_space(s.drop_first()[a]) by {
            assert(s.drop_first()[a] == s[a + 1]);
        }
        lemma_first_non_ws_unique(s.drop_first(), p - 1);
    }
}

proof fn lemma_end_non_ws_unique(s: Seq<char>, p: int)
    requires
        0 <= p <= s.len(),
        forall|a: int| p <= a < s.len() ==> is_white_space(s[a]),
        p > 0 ==> !is_white_space(s[p - 1]),
    ensures
        end_non_ws(s) == p,
    decreases s.len(),
{
    if s.len() > 0 && p < s.len() {
        assert(is_white_space(s.last()));
        assert forall|a: int| p <= a < s.len() - 1 implies is_white_space(s.drop_last()[a]) by {
            assert(s.drop_last()[a] == s[a]);
        }
        lemma_end_non_ws_unique(s.drop_last(), p);
    }
}

/// Trimming removes exactly the whitespace at both ends: the result is a
/// contiguous part of the string, everything cut off before and after it is
/// whitespace, and when the result is not empty it starts and ends with a
/// character that is not whitespace.
pub proof fn lemma_trim_characterized(s: Seq<char>)
    ensures
        exists|i: int, j: int|
            #![trigger s.subrange(i, j)]
            0 <= i <= j <= s.len() && trim_spec(s) == s.subrange(i, j) && (forall|a: int|
                0 <= a < i ==> is_white_space(#[trigger] s[a])) && (forall|a: int|
                j <= a < s.len() ==> is_white_space(#[trigger] s[a])),
        trim_spec(s).len() > 0 ==> !is_white_space(trim_spec(s)[0]) && !is_white_space(
            trim_spec(s).last(),
        ),
        (forall|a: int| 0 <= a < s.len() ==> is_white_space(#[trigger] s[a])) ==> trim_spec(s).len()
            == 0,
{
    let p = first_non_ws(s);
    lemma_first_non_ws_range(s);
    let t = s.skip(p);
    let q = end_non_ws(t);
    lemma_end_non_ws_range(t);
    assert(trim_spec(s) =~= s.subrange(p, p + q));
    assert forall|a: int| p + q <= a < s.len() implies is_white_space(#[trigger] s[a]) by {
        assert(s[a] == t[a - p]);
    }
    if q > 0 {
        assert(!is_white_space(t[q - 1]));
        assert(trim_spec(s).last() == t[q - 1]);
        assert(trim_spec(s)[0] == t[0]);
        assert(t[0] == s[p]);
    }
    if forall|a: int| 0 <= a < s.len() ==> is_white_space(#[trigger] s[a]) {
        if q > 0 {
            assert(is_white_space(s[p + q - 1]));
            assert(t[q - 1] == s[p + q - 1]);
        }
    }
}

/// `v` without leading and trailing whitespace.
pub fn trim_chars(v: &Vec<char>) -> (r: Vec<char>)
    ensures
        r@ == trim_spec(v@),
{
    let n = v.len();
    let mut start: usize = 0;
    while start < n && char_is_whitespace(v[start])
        invariant
            n == v@.len(),
            start <= n,
            forall|a: int| 0 <= a < start ==> is_white_space(v@[a]),
        decreases n - start,
    {
        start = start + 1;
    }
    proof {
        lemma_first_non_ws_unique(v@, start as int);
    }
    let ghost t = v@.skip(start as int);
    let mut end: usize = n;
    while end > start && char_is_whitespace(v[end - 1])
        invariant
            n == v@.len(),
            start <= end <= n,
            t == v@.skip(start as int),
            forall|a: int| end <= a < n ==> is_white_space(v@[a]),
        decreases end,
    {
        end = end - 1;
    }
    proof {
        assert forall|a: int| end - start <= a < t.len() implies is_white_space(t[a]) by {
            assert(t[a] == v@[a + start]);
        }
        lemma_end_non_ws_unique(t, end - start);
    }
    let mut r: Vec<char> = Vec::new();
    let mut k: usize = start;
    while k < end
        invariant
            n == v@.len(),
            start <= k <= end <= n,
            r@ == v@.subrange(start as int, k as int),
        decreases end - k,
    {
        r.push(v[k]);
        proof {
            assert(v@.subrange(start as int, k + 1) =~= v@.subrange(start as int, k as int).push(
                v@[k as int],
            ));
        }
        k = k + 1;
    }
    proof {
        assert(r@ =~= t.take(end - start));
    }
    r
}

/// `s` with every leading `c` removed.
pub open spec fn trim_start_char(s: Seq<char>, c: char) -> Seq<char>
    decreases s.len(),
{
    if s.len() > 0 && s[0] == c {
        trim_start_char(s.drop_first(), c)
    } else {
        s
    }
}

/// `s` with every trailing `c` removed.
pub open spec fn trim_end_char(s: Seq<char>, c: char) -> Seq<char>
    decreases s.len(),
{
    if s.len() > 0 && s.last() == c {
        trim_end_char(s.drop_last(), c)
    } else {
        s
    }
}

/// `v` with every leading `c` removed (`str::trim_start_matches`).
pub fn trim_start_matches_char(v: &Vec<char>, c: char) -> (r: Vec<char>)
    ensures
        r@ == trim_start_char(v@, c),
{
    let n = v.len();
    let mut start: usize = 0;
    proof {
        assert(v@.skip(0) =~= v@);
    }
    while start < n && v[start] == c
        invariant
            n == v@.len(),
            start <= n,
            trim_start_char(v@, c) == trim_start_char(v@.skip(start as int), c),
        decreases n - start,
    {
        proof {
            assert(v@.skip(start as int).drop_first() =~= v@.skip(start + 1));
        }
        start = start + 1;
    }
    proof {
        assert(v@.skip(0) =~= v@);
    }
    let mut r: Vec<char> = Vec::new();
    let mut k: usize = start;
    while k < n
        invariant
            n == v@.len(),
            start <= k <= n,
            r@ == v@.subrange(start as int, k as int),
        decreases n - k,
    {
        r.push(v[k]);
        proof {
            assert(v@.subrange(start as int, k + 1) =~= v@.subrange(start as int, k as int).push(
                v@[k as int],
            ));
        }
        k = k + 1;
    }
    proof {
        assert(r@ =~= v@.skip(start as int));
    }
    r
}

/// `v` with every trailing `c` removed (`str::trim_end_matches`).
pub fn trim_end_matches_char(v: &Vec<char>, c: char) -> (r: Vec<char>)
    ensures
        r@ == trim_end_char(v@, c),
{
    let mut end: usize = v.len();
    proof {
        assert(v@.take(v@.len() as int) =~= v@);
    }
    while end > 0 && v[end - 1] == c
        invariant
            end <= v@.len(),
            trim_end_char(v@, c) == trim_end_char(v@.take(end as int), c),
        decreases end,
    {
        proof {
            assert(v@.take(end as int).drop_last() =~= v@.take(end - 1));
        }
        end = end - 1;
    }
    let mut r: Vec<char> = Vec::new();
    let mut k: usize = 0;
    while k < end
        invariant
            end <= v@.len(),
            k <= end,
            r@ == v@.take(k as int),
        decreases end - k,
    {
        r.push(v[k]);
        proof {
            assert(v@.take(k + 1) =~= v@.take(k as int).push(v@[k as int]));
        }
        k = k + 1;
    }
    r
}

/// `trim_matches(c)`: both ends stripped of `c`.
pub open spec fn trim_char(s: Seq<char>, c: char) -> Seq<char> {
    trim_end_char(trim_start_char(s, c), c)
}

/// Whether two strings hold the same characters.
pub fn str_eq(a: &str, b: &str) -> (r: bool)
    ensures
        r == (a@ == b@),
{
    let x = chars_of(a);
    let y = chars_of(b);
    chars_eq(&x, &y)
}

/// Whether two character vectors are equal.
pub fn chars_eq(x: &Vec<char>, y: &Vec<char>) -> (r: bool)
    ensures
        r == (x@ == y@),
{
    if x.len() != y.len() {
        return false;
    }
    let mut k: usize = 0;
    while k < x.len()
        invariant
            x@.len() == y@.len(),
            k <= x@.len(),
            forall|a: int| 0 <= a < k ==> x@[a] == y@[a],
        decreases x@.len() - k,
    {
        if x[k] != y[k] {
            return false;
        }
        k = k + 1;
    }
    proof {
        assert(x@ =~= y@);
    }
    true
}

/// `v` followed by the characters of `s`.
pub fn push_str(v: &mut Vec<char>, s: &str)
    ensures
        final(v)@ == old(v)@ + s@,
{
    let c = chars_of(s);
    let mut k: usize = 0;
    while k < c.len()
        invariant
            k <= c@.len(),
            c@ == s@,
            v@ == old(v)@ + c@.take(k as int),
        decreases c@.len() - k,
    {
        v.push(c[k]);
        proof {
            assert(c@.take(k + 1) =~= c@.take(k as int).push(c@[k as int]));
        }
        k = k + 1;
    }
    proof {
        assert(c@.take(c@.len() as int) =~= c@);
    }
}

/// `a` followed by `b`.
pub fn concat_str(a: &str, b: &str) -> (r: String)
    ensures
        r@ == a@ + b@,
{
    let mut s = String::from_str(a);
    s.append(b);
    s
}


/// `v` followed by the characters of `w`.
pub fn push_chars(v: &mut Vec<char>, w: &Vec<char>)
    ensures
        final(v)@ == old(v)@ + w@,
{
    let mut k: usize = 0;
    while k < w.len()
        invariant
            k <= w@.len(),
            v@ == old(v)@ + w@.take(k as int),
        decreases w@.len() - k,
    {
        v.push(w[k]);
        proof {
            assert(w@.take(k + 1) =~= w@.take(k as int).push(w@[k as int]));
        }
        k = k + 1;
    }
    proof {
        assert(w@.take(w@.len() as int) =~= w@);
    }
}

/// The decimal digits of a natural number.
pub open spec fn nat_text(n: nat) -> Seq<char>
    decreases n,
{
    if n < 10 {
        seq![('0' as u8 + n) as char]
    } else {
        nat_text(n / 10).push(('0' as u8 + n % 10) as char)
    }
}

/// The decimal text of an integer (`to_string`): a `-` before negative values.
pub open spec fn int_text(v: int) -> Seq<char> {
    if v < 0 {
        seq!['-'] + nat_text((-v) as nat)
    } else {
        nat_text(v as nat)
    }
}

fn digit_char(d: u64) -> (c: char)
    requires
        d < 10,
    ensures
        c == ('0' as u8 + d) as char,
{
    ((48 + d) as u8) as char
}

/// The decimal digits of `n`.
pub fn nat_to_text(n: u64) -> (r: Vec<char>)
    ensures
        r@ == nat_text(n as nat),
    decreases n,
{
    if n < 10 {
        let mut r: Vec<char> = Vec::new();
        r.push(digit_char(n));
        proof {
            assert(r@ =~= seq![('0' as u8 + n) as char]);
        }
        r
    } else {
        let mut r = nat_to_text(n / 10);
        r.push(digit_char(n % 10));
        r
    }
}

/// The decimal text of an `i32` (`to_string`).
pub fn i32_to_text(v: i32) -> (r: Vec<char>)
    ensures
        r@ == int_text(v as int),
{
    if v < 0 {
        let mag: u64 = (0 - (v as i64)) as u64;
        let digits = nat_to_text(mag);
        let mut r: Vec<char> = Vec::new();
        r.push('-');
        push_chars(&mut r, &digits);
        proof {
            assert(r@ =~= seq!['-'] + nat_text((-(v as int)) as nat));
        }
        r
    } else {
        nat_to_text(v as u64)
    }
}

} // verus!
