//! The XML events of an XMP packet, as `quick_xml` reads them (text trimmed),
//! and the namespace prefixes the packet declares.

use vstd::prelude::*;
use vstd::utf8::{valid_utf8, decode_utf8};
use quick_xml::events::Event;
use crate::text::{chars_of, string_of, trim_chars, trim_spec, chars_eq};

verus! {

/// Kind of an XML event.
#[derive(Debug, Clone, Copy, PartialEq, Eq, Structural)]
pub enum XmlKind {
    Start,
    Empty,
    End,
    Text,
    /// A comment, CDATA section, declaration, processing instruction or
    /// doctype.
    Other,
}

/// One XML event: its kind; the qualified name of a tag or the raw (still
/// escaped) text of a text event; the raw attributes of a start or empty tag;
/// and the event as `quick_xml::Writer` writes it back.
#[derive(Debug, Clone)]
pub struct XmlEvent {
    pub kind: XmlKind,
    pub name: String,
    pub attrs: Vec<(String, String)>,
    pub written: Vec<u8>,
}

/// The value of an XML event.
pub struct XmlEventView {
    pub kind: XmlKind,
    pub name: Seq<char>,
    pub attrs: Seq<(Seq<char>, Seq<char>)>,
    pub written: Seq<u8>,
}

/// Values of a list of string pairs.
pub open spec fn string_pairs(v: Seq<(String, String)>) -> Seq<(Seq<char>, Seq<char>)> {
    v.map_values(|p: (String, String)| (p.0@, p.1@))
}

/// The value of an event.
pub open spec fn event_view(e: XmlEvent) -> XmlEventView {
    XmlEventView { kind: e.kind, name: e.name@, attrs: string_pairs(e.attrs@), written: e.written@ }
}

/// Values of a list of events.
pub open spec fn events_view(v: Seq<XmlEvent>) -> Seq<XmlEventView> {
    v.map_values(|e: XmlEvent| event_view(e))
}

/// Kind and name (or raw text) bytes of each event `quick_xml` reads from
/// `xml` with text trimming, up to the end of input or the first error.
pub uninterp spec fn xml_shapes(xml: Seq<char>) -> Seq<(XmlKind, Seq<u8>)>;

/// The raw attribute `(key, value)` bytes of each event `quick_xml` reads
/// from `xml` (empty for events other than start and empty tags).
pub uninterp spec fn xml_attributes(xml: Seq<char>) -> Seq<Seq<(Seq<u8>, Seq<u8>)>>;

/// Each event `quick_xml` reads from `xml`, as `quick_xml::Writer` writes it.
pub uninterp spec fn xml_written(xml: Seq<char>) -> Seq<Seq<u8>>;

/// `quick_xml::escape::unescape`: the text with its entity and character
/// references replaced, or `None` when a reference is malformed or unknown.
pub uninterp spec fn xml_unescaped(raw: Seq<char>) -> Option<Seq<char>>;

/// Values of kinds and name bytes.
pub open spec fn shapes_view(v: Seq<(XmlKind, Vec<u8>)>) -> Seq<(XmlKind, Seq<u8>)> {
    v.map_values(|p: (XmlKind, Vec<u8>)| (p.0, p.1@))
}

/// Values of a list of byte pairs.
pub open spec fn byte_pairs(v: Seq<(Vec<u8>, Vec<u8>)>) -> Seq<(Seq<u8>, Seq<u8>)> {
    v.map_values(|p: (Vec<u8>, Vec<u8>)| (p.0@, p.1@))
}

/// Values of attribute lists.
pub open spec fn attr_lists_view(v: Seq<Vec<(Vec<u8>, Vec<u8>)>>) -> Seq<Seq<(Seq<u8>, Seq<u8>)>> {
    v.map_values(|a: Vec<(Vec<u8>, Vec<u8>)>| byte_pairs(a@))
}

/// Values of byte strings.
pub open spec fn bytes_view(v: Seq<Vec<u8>>) -> Seq<Seq<u8>> {
    v.map_values(|s: Vec<u8>| s@)
}

/// `quick_xml::Reader::from_str` with `trim_text(true)`, then
/// `read_event` until the end or an error: each event's kind and the bytes
/// of its name, or of its raw text for a text event (none for other
/// events). The reading is named `xml_shapes`.
#[verifier::external_body]
fn read_xml_shapes(xml: &str) -> (r: Vec<(XmlKind, Vec<u8>)>)
    ensures
        shapes_view(r@) == xml_shapes(xml@),
{
    let mut reader = quick_xml::Reader::from_str(xml);
    reader.config_mut().trim_text(true);
    let mut out = Vec::new();
    loop {
        out.push(match reader.read_event() {
            Ok(Event::Start(e)) => (XmlKind::Start, e.name().as_ref().to_vec()),
            Ok(Event::Empty(e)) => (XmlKind::Empty, e.name().as_ref().to_vec()),
            Ok(Event::End(e)) => (XmlKind::End, e.name().as_ref().to_vec()),
            Ok(Event::Text(t)) => (XmlKind::Text, t.to_vec()),
            Ok(Event::Eof) | Err(_) => return out,
            Ok(_) => (XmlKind::Other, Vec::new()),
        });
    }
}

/// The same reading as `read_xml_shapes`: each event's raw attribute bytes
/// (`BytesStart::attributes`, malformed ones skipped), none for events that
/// are not start or empty tags. Named `xml_attributes`.
#[verifier::external_body]
fn read_xml_attributes(xml: &str) -> (r: Vec<Vec<(Vec<u8>, Vec<u8>)>>)
    ensures
        attr_lists_view(r@) == xml_attributes(xml@),
{
    let mut reader = quick_xml::Reader::from_str(xml);
    reader.config_mut().trim_text(true);
    let mut out = Vec::new();
    loop {
        out.push(match reader.read_event() {
            Ok(Event::Start(e)) | Ok(Event::Empty(e)) => e.attributes().flatten().map(|a| (a.key.as_ref().to_vec(), a.value.to_vec())).collect(),
            Ok(Event::Eof) | Err(_) => return out,
            Ok(_) => Vec::new(),
        });
    }
}

/// The same reading as `read_xml_shapes`: each event as a fresh
/// `quick_xml::Writer` writes it. Named `xml_written`.
#[verifier::external_body]
fn read_xml_written(xml: &str) -> (r: Vec<Vec<u8>>)
    ensures
        bytes_view(r@) == xml_written(xml@),
{
    let mut reader = quick_xml::Reader::from_str(xml);
    reader.config_mut().trim_text(true);
    let mut out = Vec::new();
    loop {
        let ev = match reader.read_event() {
            Ok(Event::Eof) | Err(_) => return out,
            Ok(ev) => ev,
        };
        let mut w = quick_xml::Writer::new(Vec::new());
        let _ = w.write_event(ev);
        out.push(w.into_inner());
    }
}

/// `quick_xml::escape::unescape` of the raw text: named `xml_unescaped`.
/// Text without `&` holds no reference and comes back as it is.
#[verifier::external_body]
fn unescape_xml(raw: &str) -> (r: Option<String>)
    ensures
        match r {
            Some(s) => xml_unescaped(raw@) == Some(s@),
            None => xml_unescaped(raw@) is None,
        },
        !raw@.contains('&') ==> r is Some && r.unwrap()@ == raw@,
{
    quick_xml::escape::unescape(raw).ok().map(|c| c.into_owned())
}

/// `std::str::from_utf8`: the text of the bytes when they are valid UTF-8.
#[verifier::external_body]
pub fn utf8_text(b: &[u8]) -> (r: Option<String>)
    ensures
        match r {
            Some(s) => valid_utf8(b@) && s@ == decode_utf8(b@),
            None => !valid_utf8(b@),
        },
{
    std::str::from_utf8(b).ok().map(|s| s.to_owned())
}

/// The text of the bytes when they are valid UTF-8, empty otherwise.
pub open spec fn utf8_or_empty(b: Seq<u8>) -> Seq<char> {
    if valid_utf8(b) {
        decode_utf8(b)
    } else {
        Seq::empty()
    }
}

/// The text of the bytes, empty when they are not valid UTF-8.
pub fn text_or_empty(b: &Vec<u8>) -> (r: String)
    ensures
        r@ == utf8_or_empty(b@),
{
    match utf8_text(b.as_slice()) {
        Some(s) => s,
        None => String::new(),
    }
}

/// Attribute bytes as text.
pub open spec fn attr_texts(a: Seq<(Seq<u8>, Seq<u8>)>) -> Seq<(Seq<char>, Seq<char>)> {
    a.map_values(|p: (Seq<u8>, Seq<u8>)| (utf8_or_empty(p.0), utf8_or_empty(p.1)))
}

fn attrs_as_text(a: &Vec<(Vec<u8>, Vec<u8>)>) -> (r: Vec<(String, String)>)
    ensures
        string_pairs(r@) == attr_texts(byte_pairs(a@)),
{
    let mut r: Vec<(String, String)> = Vec::new();
    let mut k: usize = 0;
    while k < a.len()
        invariant
            k <= a@.len(),
            r@.len() == k,
            string_pairs(r@) == attr_texts(byte_pairs(a@)).take(k as int),
        decreases a@.len() - k,
    {
        let p = (text_or_empty(&a[k].0), text_or_empty(&a[k].1));
        r.push(p);
        proof {
            assert(string_pairs(r@)[k as int] == (p.0@, p.1@));
            assert(string_pairs(r@) =~= attr_texts(byte_pairs(a@)).take(k + 1));
        }
        k = k + 1;
    }
    proof {
        assert(attr_texts(byte_pairs(a@)).take(a@.len() as int) =~= attr_texts(byte_pairs(a@)));
    }
    r
}

fn copy_bytes(b: &Vec<u8>) -> (r: Vec<u8>)
    ensures
        r@ == b@,
{
    let mut r: Vec<u8> = Vec::new();
    let mut k: usize = 0;
    while k < b.len()
        invariant
            k <= b@.len(),
            r@ == b@.take(k as int),
        decreases b@.len() - k,
    {
        r.push(b[k]);
        proof {
            assert(r@ =~= b@.take(k + 1));
        }
        k = k + 1;
    }
    proof {
        assert(b@.take(b@.len() as int) =~= b@);
    }
    r
}

/// The events of `xml`: the readings put side by side, as far as all three
/// reach.
pub open spec fn xml_events_of(xml: Seq<char>) -> Seq<XmlEventView> {
    let s = xml_shapes(xml);
    let a = xml_attributes(xml);
    let w = xml_written(xml);
    let n = if s.len() <= a.len() && s.len() <= w.len() {
        s.len()
    } else if a.len() <= w.len() {
        a.len()
    } else {
        w.len()
    };
    Seq::new(
        n,
        |i: int|
            XmlEventView {
                kind: s[i].0,
                name: utf8_or_empty(s[i].1),
                attrs: attr_texts(a[i]),
                written: w[i],
            },
    )
}

/// A copy of a list of string pairs.
pub fn clone_pairs(v: &Vec<(String, String)>) -> (r: Vec<(String, String)>)
    ensures
        string_pairs(r@) == string_pairs(v@),
{
    let mut r: Vec<(String, String)> = Vec::new();
    let mut k: usize = 0;
    while k < v.len()
        invariant
            k <= v@.len(),
            r@.len() == k,
            string_pairs(r@) == string_pairs(v@).take(k as int),
        decreases v@.len() - k,
    {
        let p = (v[k].0.clone(), v[k].1.clone());
        r.push(p);
        proof {
            assert(string_pairs(r@)[k as int] == (p.0@, p.1@));
            assert(string_pairs(r@) =~= string_pairs(v@).take(k + 1));
        }
        k = k + 1;
    }
    proof {
        assert(string_pairs(v@).take(v@.len() as int) =~= string_pairs(v@));
    }
    r
}

/// The XML events of a packet (text trimmed).
pub fn xml_events(xml: &str) -> (r: Vec<XmlEvent>)
    ensures
        events_view(r@) == xml_events_of(xml@),
{
    let shapes = read_xml_shapes(xml);
    let attrs = read_xml_attributes(xml);
    let written = read_xml_written(xml);
    let ghost sv = shapes_view(shapes@);
    let ghost av = attr_lists_view(attrs@);
    let ghost wv = bytes_view(written@);
    let mut n = shapes.len();
    if attrs.len() < n {
        n = attrs.len();
    }
    if written.len() < n {
        n = written.len();
    }
    let mut out: Vec<XmlEvent> = Vec::new();
    let mut k: usize = 0;
    while k < n
        invariant
            sv == shapes_view(shapes@),
            av == attr_lists_view(attrs@),
            wv == bytes_view(written@),
            n <= shapes@.len(),
            n <= attrs@.len(),
            n <= written@.len(),
            k <= n,
            out@.len() == k,
            forall|i: int|
                0 <= i < k ==> #[trigger] event_view(out@[i]) == (XmlEventView {
                    kind: sv[i].0,
                    name: utf8_or_empty(sv[i].1),
                    attrs: attr_texts(av[i]),
                    written: wv[i],
                }),
        decreases n - k,
    {
        let e = XmlEvent {
            kind: shapes[k].0,
            name: text_or_empty(&shapes[k].1),
            attrs: attrs_as_text(&attrs[k]),
            written: copy_bytes(&written[k]),
        };
        out.push(e);
        k = k + 1;
    }
    proof {
        let target = xml_events_of(xml@);
        assert(target.len() == n);
        assert forall|i: int| 0 <= i < n implies events_view(out@)[i] == target[i] by {
            assert(events_view(out@)[i] == event_view(out@[i]));
        }
        assert(events_view(out@) =~= target);
    }
    out
}

/// The text of a raw attribute or text value with its references decoded,
/// or the raw text when they cannot be.
pub open spec fn decoded(raw: Seq<char>) -> Seq<char> {
    match xml_unescaped(raw) {
        Some(s) => s,
        None => raw,
    }
}

/// Decodes the references of a raw value, keeping it as it is when they
/// cannot be decoded.
pub fn decode_entities(raw: &str) -> (r: String)
    ensures
        r@ == decoded(raw@),
        !raw@.contains('&') ==> r@ == raw@,
{
    match unescape_xml(raw) {
        Some(s) => s,
        None => String::from_str(raw),
    }
}

// ---------------------------------------------------------------------------
// Text search
// ---------------------------------------------------------------------------

/// The first index `j >= i` where `pat` occurs in `s`.
pub open spec fn find_from<T>(s: Seq<T>, pat: Seq<T>, i: int) -> Option<int>
    decreases s.len() + 1 - i,
{
    if i < 0 || i + pat.len() > s.len() {
        None
    } else if s.subrange(i, i + pat.len()) == pat {
        Some(i)
    } else {
        find_from(s, pat, i + 1)
    }
}

/// A found index lies at or after the start and leaves room for the pattern.
pub proof fn lemma_find_from_bounds<T>(s: Seq<T>, pat: Seq<T>, i: int)
    ensures
        find_from(s, pat, i) matches Some(j) ==> i <= j && j + pat.len() <= s.len() && s.subrange(
            j,
            j + pat.len(),
        ) == pat,
    decreases s.len() + 1 - i,
{
    if !(i < 0 || i + pat.len() > s.len()) && s.subrange(i, i + pat.len()) != pat {
        lemma_find_from_bounds(s, pat, i + 1);
    }
}

/// Whether `pat` occurs at `i` in `s`.
fn occurs_at(s: &Vec<char>, pat: &Vec<char>, i: usize) -> (b: bool)
    requires
        i + pat@.len() <= s@.len(),
    ensures
        b == (s@.subrange(i as int, i + pat@.len()) == pat@),
{
    let mut k: usize = 0;
    while k < pat.len()
        invariant
            i + pat@.len() <= s@.len(),
            k <= pat@.len(),
            forall|m: int| 0 <= m < k ==> s@[i + m] == pat@[m],
        decreases pat@.len() - k,
    {
        assert(i + k < s@.len());
        assert(s@.len() == s.len());
        if s[i + k] != pat[k] {
            proof {
                assert(s@.subrange(i as int, i + pat@.len())[k as int] != pat@[k as int]);
            }
            return false;
        }
        k = k + 1;
    }
    proof {
        assert(s@.subrange(i as int, i + pat@.len()) =~= pat@);
    }
    true
}

/// The first index at or after `i` where `pat` occurs in `s`.
pub fn find_chars(s: &Vec<char>, pat: &Vec<char>, i: usize) -> (r: Option<usize>)
    ensures
        match r {
            Some(j) => find_from(s@, pat@, i as int) == Some(j as int),
            None => find_from(s@, pat@, i as int) is None,
        },
{
    let mut j = i;
    while j <= s.len() && pat.len() <= s.len() - j
        invariant
            i <= j,
            find_from(s@, pat@, i as int) == find_from(s@, pat@, j as int),
        decreases s@.len() + 1 - j,
    {
        if occurs_at(s, pat, j) {
            return Some(j);
        }
        if j == s.len() {
            proof {
                assert(s@.subrange(j as int, j as int) =~= pat@);
            }
            return None;
        }
        j = j + 1;
    }
    None
}

// ---------------------------------------------------------------------------
// Namespace prefixes
// ---------------------------------------------------------------------------

/// The first index at or after `i` that is not a space or a tab.
pub open spec fn skip_blanks(s: Seq<char>, i: int) -> int
    decreases s.len() - i,
{
    if i < 0 || i >= s.len() || (s[i] != ' ' && s[i] != '\t') {
        i
    } else {
        skip_blanks(s, i + 1)
    }
}

/// The blank-skipping index stays within the text.
pub proof fn lemma_skip_blanks_bounds(s: Seq<char>, i: int)
    requires
        0 <= i <= s.len(),
    ensures
        i <= skip_blanks(s, i) <= s.len(),
    decreases s.len() - i,
{
    if i < s.len() && (s[i] == ' ' || s[i] == '\t') {
        lemma_skip_blanks_bounds(s, i + 1);
    }
}

/// The `xmlns:prefix="uri"` declarations found scanning `s` from `i`, in
/// order: after each `xmlns:`, the prefix is the trimmed text up to the next
/// `=`; spaces and tabs after it are skipped; a quote (`"` or `'`) must
/// follow, and the URI runs to the next occurrence of that quote.
pub open spec fn ns_scan(s: Seq<char>, i: int) -> Seq<(Seq<char>, Seq<char>)>
    decreases s.len() - i,
{
    if i < 0 || i > s.len() {
        Seq::empty()
    } else {
        match find_from(s, "xmlns:"@, i) {
            None => Seq::empty(),
            Some(p) => {
                proof {
                    lemma_find_from_bounds(s, "xmlns:"@, i);
                    reveal_strlit("xmlns:");
                }
                let a = p + 6;
                match find_from(s, seq!['='], a) {
                    None => ns_scan(s, a),
                    Some(e) => {
                        proof {
                            lemma_find_from_bounds(s, seq!['='], a);
                            lemma_skip_blanks_bounds(s, e + 1);
                        }
                        let prefix = trim_spec(s.subrange(a, e));
                        let b = skip_blanks(s, e + 1);
                        if b < s.len() && (s[b] == '"' || s[b] == '\'') {
                            match find_from(s, seq![s[b]], b + 1) {
                                Some(end) => {
                                    proof {
                                        lemma_find_from_bounds(s, seq![s[b]], b + 1);
                                    }
                                    seq![(prefix, s.subrange(b + 1, end))] + ns_scan(s, end + 1)
                                },
                                None => ns_scan(s, b + 1),
                            }
                        } else {
                            ns_scan(s, b)
                        }
                    },
                }
            },
        }
    }
}

/// The prefix map of a packet, as insertions in order: the `xmp`, `dc`,
/// `rdf` and `xml` defaults, then the declarations found in the text (a
/// later insertion of a prefix overrides an earlier one).
pub open spec fn ns_map_entries(xml: Seq<char>) -> Seq<(Seq<char>, Seq<char>)> {
    seq![
        ("xmp"@, crate::xmp::NS_XMP@),
        ("dc"@, crate::xmp::NS_DC@),
        ("rdf"@, crate::xmp::NS_RDF@),
        ("xml"@, crate::xmp::NS_XML@),
    ] + ns_scan(xml, 0)
}

/// The URI a prefix maps to: its last insertion.
pub open spec fn ns_lookup(map: Seq<(Seq<char>, Seq<char>)>, prefix: Seq<char>) -> Option<Seq<char>>
    decreases map.len(),
{
    if map.len() == 0 {
        None
    } else if map.last().0 == prefix {
        Some(map.last().1)
    } else {
        ns_lookup(map.drop_last(), prefix)
    }
}

/// The namespace and local part of a qualified name: the prefix before the
/// first `:` looked up in the map (empty when unknown), or no namespace when
/// the name has no `:`.
pub open spec fn resolved(name: Seq<char>, map: Seq<(Seq<char>, Seq<char>)>) -> (Seq<char>, Seq<char>) {
    match find_from(name, seq![':'], 0) {
        Some(c) => (
            match ns_lookup(map, name.take(c)) {
                Some(u) => u,
                None => Seq::empty(),
            },
            name.skip(c + 1),
        ),
        None => (Seq::empty(), name),
    }
}

/// The insertions of a packet's prefix map, in order.
pub fn build_ns_map(xml: &str) -> (m: Vec<(String, String)>)
    ensures
        string_pairs(m@) == ns_map_entries(xml@),
{
    let mut m: Vec<(String, String)> = Vec::new();
    m.push((String::from_str("xmp"), String::from_str(crate::xmp::NS_XMP)));
    m.push((String::from_str("dc"), String::from_str(crate::xmp::NS_DC)));
    m.push((String::from_str("rdf"), String::from_str(crate::xmp::NS_RDF)));
    m.push((String::from_str("xml"), String::from_str(crate::xmp::NS_XML)));
    let ghost head = string_pairs(m@);
    proof {
        assert(head =~= seq![
            ("xmp"@, crate::xmp::NS_XMP@),
            ("dc"@, crate::xmp::NS_DC@),
            ("rdf"@, crate::xmp::NS_RDF@),
            ("xml"@, crate::xmp::NS_XML@),
        ]);
    }
    let s = chars_of(xml);
    let marker = chars_of("xmlns:");
    proof {
        reveal_strlit("xmlns:");
    }
    let mut eq: Vec<char> = Vec::new();
    eq.push('=');
    let mut i: usize = 0;
    while i <= s.len()
        invariant
            s@ == xml@,
            marker@ == "xmlns:"@,
            marker@.len() == 6,
            eq@ == seq!['='],
            i <= s@.len() + 1,
            string_pairs(m@) + ns_scan(s@, i as int) == ns_map_entries(xml@),
        decreases s@.len() + 1 - i,
    {
        let ghost before = string_pairs(m@);
        let p = match find_chars(&s, &marker, i) {
            Some(p) => p,
            None => {
                proof {
                    assert(ns_scan(s@, i as int) == Seq::<(Seq<char>, Seq<char>)>::empty());
                    assert(before + Seq::<(Seq<char>, Seq<char>)>::empty() =~= before);
                }
                return m;
            },
        };
        proof {
            lemma_find_from_bounds(s@, marker@, i as int);
        }
        let a = p + 6;
        let e = match find_chars(&s, &eq, a) {
            Some(e) => e,
            None => {
                i = a;
                continue;
            },
        };
        proof {
            lemma_find_from_bounds(s@, eq@, a as int);
        }
        let mut prefix: Vec<char> = Vec::new();
        let mut k = a;
        while k < e
            invariant
                a <= k <= e < s@.len(),
                prefix@ == s@.subrange(a as int, k as int),
            decreases e - k,
        {
            prefix.push(s[k]);
            proof {
                assert(prefix@ =~= s@.subrange(a as int, k + 1));
            }
            k = k + 1;
        }
        let prefix = trim_chars(&prefix);
        let mut b = e + 1;
        proof {
            lemma_skip_blanks_bounds(s@, b as int);
        }
        while b < s.len() && (s[b] == ' ' || s[b] == '\t')
            invariant
                e + 1 <= b <= s@.len(),
                skip_blanks(s@, (e + 1) as int) == skip_blanks(s@, b as int),
            decreases s@.len() - b,
        {
            b = b + 1;
        }
        if b < s.len() && (s[b] == '"' || s[b] == '\'') {
            let mut quote: Vec<char> = Vec::new();
            quote.push(s[b]);
            match find_chars(&s, &quote, b + 1) {
                Some(end) => {
                    proof {
                        lemma_find_from_bounds(s@, quote@, (b + 1) as int);
                    }
                    let mut uri: Vec<char> = Vec::new();
                    let mut k2 = b + 1;
                    while k2 < end
                        invariant
                            b + 1 <= k2 <= end < s@.len(),
                            uri@ == s@.subrange(b + 1, k2 as int),
                        decreases end - k2,
                    {
                        uri.push(s[k2]);
                        proof {
                            assert(uri@ =~= s@.subrange(b + 1, k2 + 1));
                        }
                        k2 = k2 + 1;
                    }
                    m.push((string_of(&prefix), string_of(&uri)));
                    proof {
                        assert(string_pairs(m@) =~= before.push((prefix@, uri@)));
                        assert(before + ns_scan(s@, i as int) == before + (seq![(prefix@, uri@)]
                            + ns_scan(s@, end + 1)));
                        assert(before.push((prefix@, uri@)) + ns_scan(s@, end + 1) =~= before + (
                        seq![(prefix@, uri@)] + ns_scan(s@, end + 1)));
                    }
                    i = end + 1;
                },
                None => {
                    i = b + 1;
                },
            }
        } else {
            i = b;
        }
    }
    m
}

/// The namespace URI a prefix maps to.
pub fn lookup_ns(map: &Vec<(String, String)>, prefix: &Vec<char>) -> (r: Option<String>)
    ensures
        match r {
            Some(u) => ns_lookup(string_pairs(map@), prefix@) == Some(u@),
            None => ns_lookup(string_pairs(map@), prefix@) is None,
        },
{
    let ghost mv = string_pairs(map@);
    let mut k = map.len();
    proof {
        assert(mv.take(mv.len() as int) =~= mv);
    }
    while k > 0
        invariant
            mv == string_pairs(map@),
            k <= map@.len(),
            ns_lookup(mv, prefix@) == ns_lookup(mv.take(k as int), prefix@),
        decreases k,
    {
        let key = chars_of(map[k - 1].0.as_str());
        proof {
            let t = mv.take(k as int);
            assert(t.last() == mv[k - 1]);
            assert(t.drop_last() =~= mv.take(k - 1));
        }
        if chars_eq(&key, prefix) {
            return Some(map[k - 1].1.clone());
        }
        k = k - 1;
    }
    None
}

/// The namespace and local part of a qualified name.
pub fn resolve_prefix(name: &str, map: &Vec<(String, String)>) -> (r: (String, String))
    ensures
        (r.0@, r.1@) == resolved(name@, string_pairs(map@)),
{
    let n = chars_of(name);
    let mut colon: Vec<char> = Vec::new();
    colon.push(':');
    match find_chars(&n, &colon, 0) {
        Some(c) => {
            proof {
                lemma_find_from_bounds(n@, colon@, 0);
            }
            let mut prefix: Vec<char> = Vec::new();
            let mut local: Vec<char> = Vec::new();
            let mut k: usize = 0;
            while k < n.len()
                invariant
                    c < n@.len(),
                    k <= n@.len(),
                    k <= c ==> prefix@ == n@.take(k as int) && local@.len() == 0,
                    k > c ==> prefix@ == n@.take(c as int) && local@ == n@.subrange(c + 1, k as int),
                decreases n@.len() - k,
            {
                if k < c {
                    prefix.push(n[k]);
                    proof {
                        assert(prefix@ =~= n@.take(k + 1));
                    }
                } else if k > c {
                    local.push(n[k]);
                    proof {
                        assert(local@ =~= n@.subrange(c + 1, k + 1));
                    }
                }
                k = k + 1;
            }
            proof {
                assert(local@ =~= n@.skip(c + 1));
            }
            let ns = match lookup_ns(map, &prefix) {
                Some(u) => u,
                None => String::new(),
            };
            (ns, string_of(&local))
        },
        None => (String::new(), String::from_str(name)),
    }
}

} // verus!
