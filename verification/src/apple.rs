//! Finder tags: the `_kMDItemUserTags` extended attribute is a binary property
//! list holding an array of strings `"Name\nColourIndex"`.

use vstd::prelude::*;
use crate::text::{chars_of, string_of};

verus! {

/// One Finder tag: its text and colour index (0 when none is given).
#[derive(Debug, Clone, Default, PartialEq)]
pub struct AppleTag {
    pub text: String,
    pub color_idx: i32,
}

/// The Finder tags of a file.
#[derive(Debug, Clone, Default, PartialEq)]
pub struct AppleMetadata {
    pub user_tags: Vec<AppleTag>,
}

/// The value of a tag: `(text, colour index)`.
pub open spec fn tag_view(t: AppleTag) -> (Seq<char>, i32) {
    (t.text@, t.color_idx)
}

/// The values of a list of tags.
pub open spec fn tags_view(v: Seq<AppleTag>) -> Seq<(Seq<char>, i32)> {
    v.map_values(|t: AppleTag| tag_view(t))
}

/// Index of the first `c` in `s`.
pub open spec fn first_index_of(s: Seq<char>, c: char) -> Option<int>
    decreases s.len(),
{
    if s.len() == 0 {
        None
    } else {
        match first_index_of(s.drop_last(), c) {
            Some(i) => Some(i),
            None => if s.last() == c {
                Some(s.len() - 1)
            } else {
                None
            },
        }
    }
}

/// Whether `c` is an ASCII decimal digit.
pub open spec fn is_digit_char(c: char) -> bool {
    '0' <= c <= '9'
}

/// Whether every character of `s` is a decimal digit.
pub open spec fn all_digit_chars(s: Seq<char>) -> bool {
    forall|i: int| 0 <= i < s.len() ==> is_digit_char(#[trigger] s[i])
}

/// `s` without a leading `+` or `-`.
pub open spec fn sign_stripped(s: Seq<char>) -> Seq<char> {
    if s.len() > 0 && (s[0] == '-' || s[0] == '+') {
        s.drop_first()
    } else {
        s
    }
}

/// The decimal value of a string of digits.
pub open spec fn char_digits_value(s: Seq<char>) -> int
    decreases s.len(),
{
    if s.len() == 0 {
        0
    } else {
        char_digits_value(s.drop_last()) * 10 + (s.last() as int - '0' as int)
    }
}

/// `str::parse::<i32>`: an optional `+` or `-`, one or more digits, and a
/// value that fits in an `i32`.
pub open spec fn parse_i32_text(s: Seq<char>) -> Option<i32> {
    let neg = s.len() > 0 && s[0] == '-';
    let body = sign_stripped(s);
    if body.len() > 0 && all_digit_chars(body) {
        let v = if neg {
            -char_digits_value(body)
        } else {
            char_digits_value(body)
        };
        if i32::MIN <= v <= i32::MAX {
            Some(v as i32)
        } else {
            None
        }
    } else {
        None
    }
}

/// The tag `"Name\nIndex"` stands for: the text before the first line break
/// and the index after it (0 when it does not parse); the whole string with
/// index 0 when there is no line break.
pub open spec fn tag_of(s: Seq<char>) -> (Seq<char>, i32) {
    match first_index_of(s, '\n') {
        Some(i) => (
            s.take(i),
            match parse_i32_text(s.skip(i + 1)) {
                Some(v) => v,
                None => 0,
            },
        ),
        None => (s, 0),
    }
}

/// The tags of the string items of a tag array, in order; other items are
/// skipped.
pub open spec fn tags_of_items(items: Seq<Option<Seq<char>>>) -> Seq<(Seq<char>, i32)>
    decreases items.len(),
{
    if items.len() == 0 {
        Seq::empty()
    } else {
        let rest = tags_of_items(items.drop_last());
        match items.last() {
            Some(s) => rest.push(tag_of(s)),
            None => rest,
        }
    }
}

/// What a binary property list holds: `None` when `data` does not decode to
/// an array, otherwise for each element its text when it is a string.
pub uninterp spec fn plist_string_items(data: Seq<u8>) -> Option<Seq<Option<Seq<char>>>>;

/// Values of a list of optional strings.
pub open spec fn opt_strings_view(v: Seq<Option<String>>) -> Seq<Option<Seq<char>>> {
    v.map_values(|o: Option<String>| match o {
        Some(s) => Some(s@),
        None => None,
    })
}

/// `plist::Value::from_reader` on the bytes: `None` unless it decodes to an
/// array; each array element is handed back as its string, or `None` when it
/// is not a string. The decoding is named `plist_string_items`.
#[verifier::external_body]
fn decode_plist_items(data: &[u8]) -> (r: Option<Vec<Option<String>>>)
    ensures
        match r {
            Some(v) => plist_string_items(data@) == Some(opt_strings_view(v@)),
            None => plist_string_items(data@) is None,
        },
{
    match plist::Value::from_reader(std::io::Cursor::new(data)) {
        Ok(plist::Value::Array(arr)) => Some(
            arr.into_iter().map(|v| match v {
                plist::Value::String(s) => Some(s),
                _ => None,
            }).collect(),
        ),
        _ => None,
    }
}

/// `str::parse::<i32>` of a character sequence.
pub fn parse_i32_chars(s: &Vec<char>, from: usize) -> (r: Option<i32>)
    requires
        from <= s@.len(),
    ensures
        r == parse_i32_text(s@.skip(from as int)),
{
    let ghost t = s@.skip(from as int);
    let mut k = from;
    let neg = k < s.len() && s[k] == '-';
    if k < s.len() && (s[k] == '-' || s[k] == '+') {
        k = k + 1;
    }
    let ghost body = s@.skip(k as int);
    proof {
        if from < s@.len() && (s@[from as int] == '-' || s@[from as int] == '+') {
            assert(t.drop_first() =~= body);
        } else {
            assert(t =~= body);
        }
    }
    if k == s.len() {
        return None;
    }
    let start = k;
    let mut v: i64 = 0;
    while k < s.len()
        invariant
            start <= k <= s@.len(),
            body == s@.skip(start as int),
            t == s@.skip(from as int),
            body == sign_stripped(t),
            neg == (t.len() > 0 && t[0] == '-'),
            forall|i: int| 0 <= i < k - start ==> is_digit_char(#[trigger] body[i]),
            v == char_digits_value(body.take(k - start)),
            0 <= v <= 0x8000_0000,
        decreases s@.len() - k,
    {
        let c = s[k];
        if c < '0' || c > '9' {
            proof {
                assert(body[k - start] == c);
                assert(!is_digit_char(body[k - start]));
                assert(!all_digit_chars(body));
                assert(parse_i32_text(t) is None);
            }
            return None;
        }
        let d = (c as u32 - '0' as u32) as i64;
        proof {
            let tk = body.take(k - start + 1);
            assert(tk.drop_last() =~= body.take(k - start));
            assert(tk.last() == c);
        }
        v = v * 10 + d;
        if v > 0x8000_0000 {
            proof {
                if all_digit_chars(body) {
                    lemma_digits_grow(body, (k - start + 1) as int);
                    assert(char_digits_value(body) > 0x8000_0000);
                }
                assert(parse_i32_text(t) is None);
            }
            return None;
        }
        k = k + 1;
    }
    proof {
        assert(body.take(k - start) =~= body);
    }
    if neg {
        Some((-v) as i32)
    } else if v > 0x7fff_ffff {
        None
    } else {
        Some(v as i32)
    }
}

proof fn lemma_digits_grow(body: Seq<char>, n: int)
    requires
        0 <= n <= body.len(),
        forall|i: int| 0 <= i < body.len() ==> is_digit_char(#[trigger] body[i]),
    ensures
        char_digits_value(body.take(n)) <= char_digits_value(body),
    decreases body.len() - n,
{
    if n < body.len() {
        lemma_digits_grow(body, n + 1);
        let t = body.take(n + 1);
        assert(t.drop_last() =~= body.take(n));
        assert(is_digit_char(body[n]));
        lemma_digits_nonneg(body.take(n));
    } else {
        assert(body.take(n) =~= body);
    }
}

proof fn lemma_digits_nonneg(s: Seq<char>)
    requires
        forall|i: int| 0 <= i < s.len() ==> is_digit_char(#[trigger] s[i]),
    ensures
        char_digits_value(s) >= 0,
    decreases s.len(),
{
    if s.len() > 0 {
        assert forall|i: int| 0 <= i < s.drop_last().len() implies is_digit_char(
            #[trigger] s.drop_last()[i],
        ) by {
            assert(s.drop_last()[i] == s[i]);
        }
        lemma_digits_nonneg(s.drop_last());
        assert(is_digit_char(s[s.len() - 1]));
    }
}

/// Parses one `"Name\nColourIndex"` tag string.
pub fn parse_tag(s: &str) -> (t: AppleTag)
    ensures
        tag_view(t) == tag_of(s@),
{
    let c = chars_of(s);
    let mut i: usize = 0;
    while i < c.len() && c[i] != '\n'
        invariant
            c@ == s@,
            i <= c@.len(),
            first_index_of(c@.take(i as int), '\n') is None,
        decreases c@.len() - i,
    {
        proof {
            assert(c@.take(i + 1).drop_last() =~= c@.take(i as int));
        }
        i = i + 1;
    }
    if i == c.len() {
        proof {
            assert(c@.take(i as int) =~= c@);
        }
        return AppleTag { text: string_of(&c), color_idx: 0 };
    }
    proof {
        assert(c@.take(i + 1).drop_last() =~= c@.take(i as int));
        lemma_first_index_extends(c@, i as int + 1, '\n');
    }
    let mut text: Vec<char> = Vec::new();
    let mut k: usize = 0;
    while k < i
        invariant
            k <= i < c@.len(),
            text@ == c@.take(k as int),
        decreases i - k,
    {
        text.push(c[k]);
        proof {
            assert(text@ =~= c@.take(k + 1));
        }
        k = k + 1;
    }
    let color = match parse_i32_chars(&c, i + 1) {
        Some(v) => v,
        None => 0,
    };
    AppleTag { text: string_of(&text), color_idx: color }
}

proof fn lemma_first_index_extends(s: Seq<char>, k: int, c: char)
    requires
        0 <= k <= s.len(),
        first_index_of(s.take(k), c) is Some,
    ensures
        first_index_of(s, c) == first_index_of(s.take(k), c),
    decreases s.len(),
{
    if k == s.len() {
        assert(s.take(k) =~= s);
    } else {
        assert(s.drop_last().take(k) =~= s.take(k));
        lemma_first_index_extends(s.drop_last(), k, c);
    }
}

/// The tags of the string items of a tag array, in order.
pub fn tags_from_items(items: Vec<Option<String>>) -> (r: Vec<AppleTag>)
    ensures
        tags_view(r@) == tags_of_items(opt_strings_view(items@)),
{
    let ghost iv = opt_strings_view(items@);
    let mut out: Vec<AppleTag> = Vec::new();
    let mut k: usize = 0;
    while k < items.len()
        invariant
            iv == opt_strings_view(items@),
            k <= items@.len(),
            tags_view(out@) == tags_of_items(iv.take(k as int)),
        decreases items@.len() - k,
    {
        proof {
            assert(iv.take(k + 1).drop_last() =~= iv.take(k as int));
            assert(iv.take(k + 1).last() == iv[k as int]);
        }
        match &items[k] {
            Some(s) => {
                let t = parse_tag(s.as_str());
                out.push(t);
                proof {
                    assert(tags_view(out@) =~= tags_view(out@.drop_last()).push(tag_view(t)));
                }
            },
            None => {},
        }
        k = k + 1;
    }
    proof {
        assert(iv.take(items@.len() as int) =~= iv);
    }
    out
}

/// The Finder tags stored in a binary property list: empty when the data is
/// not an array.
pub fn parse_tags_bplist(data: &[u8]) -> (r: Vec<AppleTag>)
    ensures
        tags_view(r@) == match plist_string_items(data@) {
            Some(items) => tags_of_items(items),
            None => Seq::empty(),
        },
{
    match decode_plist_items(data) {
        Some(items) => tags_from_items(items),
        None => {
            let r: Vec<AppleTag> = Vec::new();
            proof {
                assert(tags_view(r@) =~= Seq::<(Seq<char>, i32)>::empty());
            }
            r
        },
    }
}

/// The metadata of a file with these Finder tags: none when it has none.
pub fn apple_metadata_from_tags(tags: Vec<AppleTag>) -> (r: Option<AppleMetadata>)
    ensures
        match r {
            Some(m) => tags@.len() > 0 && m.user_tags@ == tags@,
            None => tags@.len() == 0,
        },
{
    if tags.len() == 0 {
        None
    } else {
        Some(AppleMetadata { user_tags: tags })
    }
}


proof fn lemma_first_index_at(s: Seq<char>, c: char, k: int)
    requires
        0 <= k < s.len(),
        s[k] == c,
        forall|i: int| 0 <= i < k ==> s[i] != c,
    ensures
        first_index_of(s, c) == Some(k),
    decreases s.len(),
{
    if s.len() - 1 > k {
        lemma_first_index_at(s.drop_last(), c, k);
    } else {
        lemma_first_index_none(s.drop_last(), c);
    }
}

proof fn lemma_first_index_none(s: Seq<char>, c: char)
    requires
        forall|i: int| 0 <= i < s.len() ==> s[i] != c,
    ensures
        first_index_of(s, c) is None,
    decreases s.len(),
{
    if s.len() > 0 {
        lemma_first_index_none(s.drop_last(), c);
    }
}

proof fn lemma_decimal_parses(n: nat)
    ensures
        crate::text::nat_text(n).len() > 0,
        all_digit_chars(crate::text::nat_text(n)),
        char_digits_value(crate::text::nat_text(n)) == n,
        crate::text::nat_text(n)[0] != '-' && crate::text::nat_text(n)[0] != '+',
    decreases n,
{
    let t = crate::text::nat_text(n);
    if n < 10 {
        let d = ('0' as u8 + n) as char;
        assert(t == seq![d]);
        assert(d as int == 48 + n);
        assert(t.drop_last() =~= Seq::<char>::empty());
        assert('0' as int == 48);
        assert(char_digits_value(t) == char_digits_value(t.drop_last()) * 10 + (t.last() as int - '0' as int));
        assert(char_digits_value(t) == n);
    } else {
        lemma_decimal_parses(n / 10);
        let h = crate::text::nat_text(n / 10);
        let d = ('0' as u8 + n % 10) as char;
        assert(d as int == 48 + n % 10);
        assert(t == h.push(d));
        assert(t.drop_last() =~= h);
        assert forall|i: int| 0 <= i < t.len() implies is_digit_char(#[trigger] t[i]) by {
            if i < h.len() {
                assert(t[i] == h[i]);
            }
        }
        assert(t[0] == h[0]);
        assert('0' as int == 48);
        assert(char_digits_value(t) == char_digits_value(h) * 10 + (t.last() as int - '0' as int));
        assert(char_digits_value(h) * 10 == (n / 10) * 10);
        assert(char_digits_value(t) == n);
    }
}

/// A tag written as its name, a line break and its colour index in decimal
/// reads back as that name and index; a string without a line break is a
/// name alone, with colour index 0.
pub proof fn lemma_tag_round_trip(name: Seq<char>, k: nat)
    requires
        !name.contains('\n'),
        k <= i32::MAX,
    ensures
        tag_of(name + "\n"@ + crate::text::nat_text(k)) == (name, k as i32),
        tag_of(name) == (name, 0i32),
{
    reveal_strlit("\n");
    let t = crate::text::nat_text(k);
    let s = name + "\n"@ + t;
    assert forall|i: int| 0 <= i < name.len() implies s[i] != '\n' by {
        assert(s[i] == name[i]);
        if name[i] == '\n' {
            assert(name.contains('\n'));
        }
    }
    assert(s[name.len() as int] == '\n');
    lemma_first_index_at(s, '\n', name.len() as int);
    assert(s.take(name.len() as int) =~= name);
    assert(s.skip((name.len() + 1) as int) =~= t);
    lemma_decimal_parses(k);
    assert(sign_stripped(t) == t);
    assert forall|i: int| 0 <= i < name.len() implies name[i] != '\n' by {
        if name[i] == '\n' {
            assert(name.contains('\n'));
        }
    }
    lemma_first_index_none(name, '\n');
}

} // verus!
