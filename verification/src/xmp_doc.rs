//! Reading a whole XMP packet into a round-trippable document: its
//! namespace table and every property of its first `rdf:Description`, each
//! classified as a simple value, a language alternative, an array, or kept
//! verbatim.

use vstd::prelude::*;
use vstd::string::*;
use vstd::utf8::{valid_utf8, decode_utf8};
use crate::xml::find_from;
use crate::xmp_read::{MetaView, meta_view, empty_meta, xmp_fields, parse_xmp_xml};
use crate::text::{chars_of, string_of, push_chars, push_str, str_eq, trim_chars, trim_spec};
use crate::folder_tree::{str_lt, chars_lt};
use crate::thumbnail_queue::strings_view;
use crate::xml::{
    XmlEvent, XmlEventView, XmlKind, event_view, events_view, string_pairs, resolved, decoded,
    xml_events_of, ns_map_entries, xml_events, build_ns_map, resolve_prefix, decode_entities,
    clone_pairs, utf8_or_empty, text_or_empty, utf8_text,
};
use crate::xmp::{
    XmpDoc, XmpProp, PropValue, ArrayKind, DocView, PropView, ValueView, XmpMetadata, NS_XMP,
    NS_DC, NS_RDF, NS_XML, pairs_view, props_view, prop_view, value_view, default_doc,
    merged_doc, doc_text, merge_doc,
};

verus! {

// ---------------------------------------------------------------------------
// The namespace table
// ---------------------------------------------------------------------------

/// `table` (sorted by prefix, one entry per prefix) with `prefix` mapped to
/// `uri`: the entry replaced in place, or a new one inserted in order.
pub open spec fn table_insert(
    table: Seq<(Seq<char>, Seq<char>)>,
    prefix: Seq<char>,
    uri: Seq<char>,
) -> Seq<(Seq<char>, Seq<char>)>
    decreases table.len(),
{
    if table.len() == 0 {
        seq![(prefix, uri)]
    } else if table[0].0 == prefix {
        seq![(prefix, uri)] + table.drop_first()
    } else if str_lt(prefix, table[0].0) {
        seq![(prefix, uri)] + table
    } else {
        seq![table[0]] + table_insert(table.drop_first(), prefix, uri)
    }
}

/// The prefix map as a table sorted by prefix, each prefix with its last URI.
pub open spec fn ns_table(map: Seq<(Seq<char>, Seq<char>)>) -> Seq<(Seq<char>, Seq<char>)>
    decreases map.len(),
{
    if map.len() == 0 {
        Seq::empty()
    } else {
        table_insert(ns_table(map.drop_last()), map.last().0, map.last().1)
    }
}

proof fn lemma_table_insert_step(t: Seq<(Seq<char>, Seq<char>)>, p: Seq<char>, u: Seq<char>, i: int)
    requires
        0 <= i < t.len(),
        t[i].0 != p,
        !str_lt(p, t[i].0),
    ensures
        t.take(i) + table_insert(t.skip(i), p, u) == t.take(i + 1) + table_insert(t.skip(i + 1), p, u),
{
    let s = t.skip(i);
    assert(s[0] == t[i]);
    assert(s.drop_first() =~= t.skip(i + 1));
    assert(t.take(i) + (seq![t[i]] + table_insert(t.skip(i + 1), p, u)) =~= t.take(i + 1)
        + table_insert(t.skip(i + 1), p, u));
}

fn table_insert_exec(table: &mut Vec<(String, String)>, prefix: &String, uri: &String)
    ensures
        string_pairs(final(table)@) == table_insert(string_pairs(old(table)@), prefix@, uri@),
{
    let ghost t = string_pairs(table@);
    let p = chars_of(prefix.as_str());
    let mut i: usize = 0;
    proof {
        assert(t.skip(0) =~= t);
        assert(t.take(0) + t =~= t);
    }
    let mut go = true;
    while go && i < table.len()
        invariant
            t == string_pairs(table@),
            p@ == prefix@,
            i <= table@.len(),
            table_insert(t, prefix@, uri@) == t.take(i as int) + table_insert(t.skip(i as int), prefix@, uri@),
            !go ==> i < table@.len() && (t[i as int].0 == prefix@ || str_lt(prefix@, t[i as int].0)),
        decreases table@.len() - i + if go { 1int } else { 0int },
    {
        let k = chars_of(table[i].0.as_str());
        if chars_eq_vec(&k, &p) || chars_lt(&p, &k) {
            go = false;
        } else {
            proof {
                lemma_table_insert_step(t, prefix@, uri@, i as int);
            }
            i = i + 1;
        }
    }
    let entry = (prefix.clone(), uri.clone());
    proof {
        let s = t.skip(i as int);
        if i < t.len() {
            assert(s[0] == t[i as int]);
        }
    }
    if !go && str_eq(table[i].0.as_str(), prefix.as_str()) {
        table.set(i, entry);
        proof {
            let s = t.skip(i as int);
            assert(s.drop_first() =~= t.skip(i + 1));
            assert(string_pairs(table@) =~= t.take(i as int) + (seq![(prefix@, uri@)] + t.skip(i + 1)));
        }
    } else {
        table.insert(i, entry);
        proof {
            assert(string_pairs(table@) =~= t.take(i as int) + (seq![(prefix@, uri@)] + t.skip(i as int)));
        }
    }
}

fn chars_eq_vec(a: &Vec<char>, b: &Vec<char>) -> (r: bool)
    ensures
        r == (a@ == b@),
{
    crate::text::chars_eq(a, b)
}

fn table_of(map: &Vec<(String, String)>) -> (t: Vec<(String, String)>)
    ensures
        string_pairs(t@) == ns_table(string_pairs(map@)),
{
    let ghost mv = string_pairs(map@);
    let mut t: Vec<(String, String)> = Vec::new();
    let mut k: usize = 0;
    proof {
        assert(string_pairs(t@) =~= Seq::<(Seq<char>, Seq<char>)>::empty());
    }
    while k < map.len()
        invariant
            mv == string_pairs(map@),
            k <= map@.len(),
            string_pairs(t@) == ns_table(mv.take(k as int)),
        decreases map@.len() - k,
    {
        proof {
            assert(mv.take(k + 1).drop_last() =~= mv.take(k as int));
            assert(mv.take(k + 1).last() == mv[k as int]);
        }
        table_insert_exec(&mut t, &map[k].0, &map[k].1);
        k = k + 1;
    }
    proof {
        assert(mv.take(map@.len() as int) =~= mv);
    }
    t
}

// ---------------------------------------------------------------------------
// Classifying a property
// ---------------------------------------------------------------------------

/// Which RDF container a tag opens, if any.
pub enum Container {
    Alt,
    Bag,
    Sequence,
}

/// The kind of an inner tag: a container, an `rdf:li`, or something else.
pub open spec fn inner_tag(n: (Seq<char>, Seq<char>)) -> Option<Option<Container>> {
    if n.0 == NS_RDF@ && n.1 == "Alt"@ {
        Some(Some(Container::Alt))
    } else if n.0 == NS_RDF@ && n.1 == "Bag"@ {
        Some(Some(Container::Bag))
    } else if n.0 == NS_RDF@ && n.1 == "Seq"@ {
        Some(Some(Container::Sequence))
    } else if n.0 == NS_RDF@ && n.1 == "li"@ {
        Some(None)
    } else {
        None
    }
}

/// The last container opened among the start and empty tags of `inner`, and
/// whether some other element (neither a container nor an `rdf:li`) appears.
pub open spec fn scan_inner(inner: Seq<XmlEventView>, map: Seq<(Seq<char>, Seq<char>)>) -> (Option<Container>, bool)
    decreases inner.len(),
{
    if inner.len() == 0 {
        (None, false)
    } else {
        let (c, nested) = scan_inner(inner.drop_last(), map);
        let e = inner.last();
        if e.kind == XmlKind::Start || e.kind == XmlKind::Empty {
            match inner_tag(resolved(e.name, map)) {
                Some(Some(k)) => (Some(k), nested),
                Some(None) => (c, nested),
                None => (c, true),
            }
        } else {
            (c, nested)
        }
    }
}

/// State of reading `rdf:li` items: inside one, its `xml:lang`, its text, the
/// items read.
pub struct ItemsView {
    pub in_li: bool,
    pub lang: Option<Seq<char>>,
    pub text: Seq<char>,
    pub items: Seq<(Seq<char>, Seq<char>)>,
}

/// The raw value of the first `xml:lang` attribute, if any.
pub open spec fn lang_attr(attrs: Seq<(Seq<char>, Seq<char>)>, map: Seq<(Seq<char>, Seq<char>)>) -> Option<Seq<char>>
    decreases attrs.len(),
{
    if attrs.len() == 0 {
        None
    } else {
        match lang_attr(attrs.drop_last(), map) {
            Some(l) => Some(l),
            None => if resolved(attrs.last().0, map) == (NS_XML@, "lang"@) {
                Some(attrs.last().1)
            } else {
                None
            },
        }
    }
}

/// The `rdf:li` items of a property's events: `(xml:lang or empty, text)`
/// for each `rdf:li` start tag closed later.
pub open spec fn li_walk(evs: Seq<XmlEventView>, map: Seq<(Seq<char>, Seq<char>)>) -> ItemsView
    decreases evs.len(),
{
    if evs.len() == 0 {
        ItemsView { in_li: false, lang: None, text: Seq::empty(), items: Seq::empty() }
    } else {
        let st = li_walk(evs.drop_last(), map);
        let e = evs.last();
        let is_li = resolved(e.name, map) == (NS_RDF@, "li"@);
        if e.kind == XmlKind::Start && is_li {
            ItemsView { in_li: true, text: Seq::empty(), lang: lang_attr(e.attrs, map), ..st }
        } else if e.kind == XmlKind::Text && st.in_li {
            ItemsView { text: st.text + decoded(e.name), ..st }
        } else if e.kind == XmlKind::End && is_li && st.in_li {
            ItemsView {
                items: st.items.push(
                    (
                        match st.lang {
                            Some(l) => l,
                            None => Seq::empty(),
                        },
                        st.text,
                    ),
                ),
                lang: None,
                text: Seq::empty(),
                in_li: false,
            }
        } else {
            st
        }
    }
}

/// The decoded text of every text event, joined.
pub open spec fn all_text(evs: Seq<XmlEventView>) -> Seq<char>
    decreases evs.len(),
{
    if evs.len() == 0 {
        Seq::empty()
    } else {
        all_text(evs.drop_last()) + if evs.last().kind == XmlKind::Text {
            decoded(evs.last().name)
        } else {
            Seq::empty()
        }
    }
}

/// The events as written back, joined.
pub open spec fn all_written(evs: Seq<XmlEventView>) -> Seq<u8>
    decreases evs.len(),
{
    if evs.len() == 0 {
        Seq::empty()
    } else {
        all_written(evs.drop_last()) + evs.last().written
    }
}

/// The values of the items.
pub open spec fn item_values(items: Seq<(Seq<char>, Seq<char>)>) -> Seq<Seq<char>> {
    items.map_values(|p: (Seq<char>, Seq<char>)| p.1)
}

/// The value of a property from its events (its start tag first, at least two
/// events): a container gives a language alternative or an array of its
/// items; otherwise, with no other element inside, the text; otherwise the
/// events written back verbatim.
pub open spec fn classified(evs: Seq<XmlEventView>, map: Seq<(Seq<char>, Seq<char>)>) -> ValueView {
    let (container, nested) = scan_inner(evs.subrange(1, evs.len() - 1), map);
    match container {
        Some(k) => {
            let items = li_walk(evs, map).items;
            match k {
                Container::Alt => ValueView::LangAlt(items),
                Container::Sequence => ValueView::Array(ArrayKind::Sequence, item_values(items)),
                Container::Bag => ValueView::Array(ArrayKind::Bag, item_values(items)),
            }
        },
        None => if !nested {
            ValueView::Simple(all_text(evs))
        } else {
            ValueView::Raw(utf8_or_empty(all_written(evs)))
        },
    }
}

// ---------------------------------------------------------------------------
// The document
// ---------------------------------------------------------------------------

/// Index just past the subtree that is open at `j` with `depth` open
/// elements: the matching end tag, or the end of the events.
pub open spec fn subtree_end(evs: Seq<XmlEventView>, j: int, depth: int) -> int
    decreases evs.len() - j,
{
    if depth <= 0 || j < 0 || j >= evs.len() {
        j
    } else if evs[j].kind == XmlKind::Start {
        subtree_end(evs, j + 1, depth + 1)
    } else if evs[j].kind == XmlKind::End {
        subtree_end(evs, j + 1, depth - 1)
    } else {
        subtree_end(evs, j + 1, depth)
    }
}

/// The end of a subtree lies between its start and the end of the events.
pub proof fn lemma_subtree_end_bounds(evs: Seq<XmlEventView>, j: int, depth: int)
    requires
        0 <= j <= evs.len(),
    ensures
        j <= subtree_end(evs, j, depth) <= evs.len(),
    decreases evs.len() - j,
{
    if !(depth <= 0 || j >= evs.len()) {
        if evs[j].kind == XmlKind::Start {
            lemma_subtree_end_bounds(evs, j + 1, depth + 1);
        } else if evs[j].kind == XmlKind::End {
            lemma_subtree_end_bounds(evs, j + 1, depth - 1);
        } else {
            lemma_subtree_end_bounds(evs, j + 1, depth);
        }
    }
}

/// The property a start tag at `i` opens, read from `evs[i..end]`.
pub open spec fn element_prop(evs: Seq<XmlEventView>, i: int, end: int, map: Seq<(Seq<char>, Seq<char>)>) -> PropView {
    let (ns, local) = resolved(evs[i].name, map);
    PropView { raw_name: evs[i].name, ns, local, value: classified(evs.subrange(i, end), map) }
}

/// The properties of the children of `rdf:Description` from `i` on, up to its
/// end tag or the end of the events.
pub open spec fn children_props(evs: Seq<XmlEventView>, i: int, map: Seq<(Seq<char>, Seq<char>)>) -> Seq<PropView>
    decreases evs.len() - i,
{
    if i < 0 || i >= evs.len() {
        Seq::empty()
    } else {
        let e = evs[i];
        if e.kind == XmlKind::Start {
            let end = subtree_end(evs, i + 1, 1);
            proof {
                lemma_subtree_end_bounds(evs, i + 1, 1);
            }
            seq![element_prop(evs, i, end, map)] + children_props(evs, end, map)
        } else if e.kind == XmlKind::Empty {
            let (ns, local) = resolved(e.name, map);
            seq![PropView { raw_name: e.name, ns, local, value: ValueView::Simple(Seq::empty()) }]
                + children_props(evs, i + 1, map)
        } else if e.kind == XmlKind::End {
            Seq::empty()
        } else {
            children_props(evs, i + 1, map)
        }
    }
}

/// Whether reading the children from `i` meets a child start tag that is the
/// last event (a property with no events after its start tag).
pub open spec fn ends_in_open_child(evs: Seq<XmlEventView>, i: int) -> bool
    decreases evs.len() - i,
{
    if i < 0 || i >= evs.len() {
        false
    } else {
        let e = evs[i];
        if e.kind == XmlKind::Start {
            let end = subtree_end(evs, i + 1, 1);
            proof {
                lemma_subtree_end_bounds(evs, i + 1, 1);
            }
            i + 1 >= evs.len() || ends_in_open_child(evs, end)
        } else if e.kind == XmlKind::End {
            false
        } else {
            ends_in_open_child(evs, i + 1)
        }
    }
}

/// Whether an attribute of `rdf:Description` is kept as a property: not
/// `rdf:about`, not a namespace declaration, and of a known namespace.
pub open spec fn attr_is_prop(key: Seq<char>, map: Seq<(Seq<char>, Seq<char>)>) -> bool {
    key != "rdf:about"@ && key != "xmlns"@ && !(key.len() >= 6 && key.take(6) == "xmlns:"@)
        && resolved(key, map).0.len() > 0
}

/// The attribute-form properties of `rdf:Description`, values decoded.
pub open spec fn attr_props(attrs: Seq<(Seq<char>, Seq<char>)>, map: Seq<(Seq<char>, Seq<char>)>) -> Seq<PropView>
    decreases attrs.len(),
{
    if attrs.len() == 0 {
        Seq::empty()
    } else {
        let rest = attr_props(attrs.drop_last(), map);
        let (k, v) = attrs.last();
        if attr_is_prop(k, map) {
            let (ns, local) = resolved(k, map);
            rest.push(PropView { raw_name: k, ns, local, value: ValueView::Simple(decoded(v)) })
        } else {
            rest
        }
    }
}

/// Index of the first start or empty tag that is `rdf:Description`.
pub open spec fn description_at(evs: Seq<XmlEventView>, map: Seq<(Seq<char>, Seq<char>)>, i: int) -> Option<int>
    decreases evs.len() - i,
{
    if i < 0 || i >= evs.len() {
        None
    } else if (evs[i].kind == XmlKind::Start || evs[i].kind == XmlKind::Empty) && resolved(
        evs[i].name,
        map,
    ) == (NS_RDF@, "Description"@) {
        Some(i)
    } else {
        description_at(evs, map, i + 1)
    }
}

/// The document a packet's events describe: the namespace table, then the
/// attribute-form properties of the first `rdf:Description`, then (when it is
/// a start tag) the properties of its children.
pub open spec fn doc_of_events(evs: Seq<XmlEventView>, map: Seq<(Seq<char>, Seq<char>)>) -> DocView {
    let props = match description_at(evs, map, 0) {
        Some(d) => attr_props(evs[d].attrs, map) + if evs[d].kind == XmlKind::Start {
            children_props(evs, d + 1, map)
        } else {
            Seq::empty()
        },
        None => Seq::empty(),
    };
    DocView { namespaces: ns_table(map), props }
}

/// Whether reading the document would meet a child start tag with nothing
/// after it.
pub open spec fn doc_read_fails(evs: Seq<XmlEventView>, map: Seq<(Seq<char>, Seq<char>)>) -> bool {
    match description_at(evs, map, 0) {
        Some(d) => evs[d].kind == XmlKind::Start && ends_in_open_child(evs, d + 1),
        None => false,
    }
}


// ---------------------------------------------------------------------------
// Executing the reading
// ---------------------------------------------------------------------------

/// The kind of an inner tag, as in `inner_tag`: `Some(Some(container))`,
/// `Some(None)` for `rdf:li`, `None` for any other element.
fn inner_tag_of(ns: &String, local: &String) -> (r: Option<Option<Container>>)
    ensures
        r == inner_tag((ns@, local@)),
{
    if !str_eq(ns.as_str(), NS_RDF) {
        None
    } else if str_eq(local.as_str(), "Alt") {
        Some(Some(Container::Alt))
    } else if str_eq(local.as_str(), "Bag") {
        Some(Some(Container::Bag))
    } else if str_eq(local.as_str(), "Seq") {
        Some(Some(Container::Sequence))
    } else if str_eq(local.as_str(), "li") {
        Some(None)
    } else {
        None
    }
}

fn scan_inner_exec(evs: &Vec<XmlEvent>, lo: usize, hi: usize, map: &Vec<(String, String)>) -> (r: (
    Option<Container>,
    bool,
))
    requires
        lo <= hi <= evs@.len(),
    ensures
        r == scan_inner(events_view(evs@).subrange(lo as int, hi as int), string_pairs(map@)),
{
    let ghost ev = events_view(evs@);
    let ghost mv = string_pairs(map@);
    let mut container: Option<Container> = None;
    let mut nested = false;
    let mut k = lo;
    proof {
        assert(ev.subrange(lo as int, lo as int) =~= Seq::<XmlEventView>::empty());
    }
    while k < hi
        invariant
            ev == events_view(evs@),
            mv == string_pairs(map@),
            lo <= k <= hi <= evs@.len(),
            (container, nested) == scan_inner(ev.subrange(lo as int, k as int), mv),
        decreases hi - k,
    {
        proof {
            assert(ev.subrange(lo as int, k + 1).drop_last() =~= ev.subrange(lo as int, k as int));
            assert(ev.subrange(lo as int, k + 1).last() == ev[k as int]);
            assert(ev[k as int] == event_view(evs@[k as int]));
        }
        let e = &evs[k];
        if e.kind == XmlKind::Start || e.kind == XmlKind::Empty {
            let (ns, local) = resolve_prefix(e.name.as_str(), map);
            match inner_tag_of(&ns, &local) {
                Some(Some(c)) => {
                    container = Some(c);
                },
                Some(None) => {},
                None => {
                    nested = true;
                },
            }
        }
        k = k + 1;
    }
    (container, nested)
}

/// The first `xml:lang` attribute's raw value.
fn lang_attr_of(attrs: &Vec<(String, String)>, map: &Vec<(String, String)>) -> (r: Option<String>)
    ensures
        match r {
            Some(l) => lang_attr(string_pairs(attrs@), string_pairs(map@)) == Some(l@),
            None => lang_attr(string_pairs(attrs@), string_pairs(map@)) is None,
        },
{
    let ghost av = string_pairs(attrs@);
    let ghost mv = string_pairs(map@);
    let mut k: usize = 0;
    while k < attrs.len()
        invariant
            av == string_pairs(attrs@),
            mv == string_pairs(map@),
            k <= attrs@.len(),
            lang_attr(av.take(k as int), mv) is None,
        decreases attrs@.len() - k,
    {
        proof {
            assert(av.take(k + 1).drop_last() =~= av.take(k as int));
            assert(av.take(k + 1).last() == av[k as int]);
        }
        let (ans, al) = resolve_prefix(attrs[k].0.as_str(), map);
        if str_eq(ans.as_str(), NS_XML) && str_eq(al.as_str(), "lang") {
            proof {
                lemma_lang_attr_prefix(av, mv, k + 1);
            }
            return Some(attrs[k].1.clone());
        }
        k = k + 1;
    }
    proof {
        assert(av.take(attrs@.len() as int) =~= av);
    }
    None
}

proof fn lemma_lang_attr_prefix(av: Seq<(Seq<char>, Seq<char>)>, mv: Seq<(Seq<char>, Seq<char>)>, k: int)
    requires
        0 <= k <= av.len(),
        lang_attr(av.take(k), mv) is Some,
    ensures
        lang_attr(av, mv) == lang_attr(av.take(k), mv),
    decreases av.len(),
{
    if k == av.len() {
        assert(av.take(k) =~= av);
    } else {
        assert(av.drop_last().take(k) =~= av.take(k));
        lemma_lang_attr_prefix(av.drop_last(), mv, k);
    }
}

/// The `rdf:li` items of `evs[lo..hi]`.
fn li_items(evs: &Vec<XmlEvent>, lo: usize, hi: usize, map: &Vec<(String, String)>) -> (r: Vec<(
    String,
    String,
)>)
    requires
        lo <= hi <= evs@.len(),
    ensures
        string_pairs(r@) == li_walk(events_view(evs@).subrange(lo as int, hi as int), string_pairs(map@)).items,
{
    let ghost ev = events_view(evs@);
    let ghost mv = string_pairs(map@);
    let mut in_li = false;
    let mut lang: Option<String> = None;
    let mut text: Vec<char> = Vec::new();
    let mut items: Vec<(String, String)> = Vec::new();
    let mut k = lo;
    proof {
        assert(ev.subrange(lo as int, lo as int) =~= Seq::<XmlEventView>::empty());
        assert(string_pairs(items@) =~= Seq::<(Seq<char>, Seq<char>)>::empty());
    }
    while k < hi
        invariant
            ev == events_view(evs@),
            mv == string_pairs(map@),
            lo <= k <= hi <= evs@.len(),
            li_walk(ev.subrange(lo as int, k as int), mv) == (ItemsView {
                in_li,
                lang: match lang {
                    Some(l) => Some(l@),
                    None => None,
                },
                text: text@,
                items: string_pairs(items@),
            }),
        decreases hi - k,
    {
        proof {
            assert(ev.subrange(lo as int, k + 1).drop_last() =~= ev.subrange(lo as int, k as int));
            assert(ev.subrange(lo as int, k + 1).last() == ev[k as int]);
            assert(ev[k as int] == event_view(evs@[k as int]));
        }
        let e = &evs[k];
        let (ns, local) = resolve_prefix(e.name.as_str(), map);
        let is_li = str_eq(ns.as_str(), NS_RDF) && str_eq(local.as_str(), "li");
        if e.kind == XmlKind::Start && is_li {
            in_li = true;
            text = Vec::new();
            lang = lang_attr_of(&e.attrs, map);
        } else if e.kind == XmlKind::Text && in_li {
            let t = decode_entities(e.name.as_str());
            push_chars(&mut text, &chars_of(t.as_str()));
        } else if e.kind == XmlKind::End && is_li && in_li {
            let l = match lang {
                Some(l) => l,
                None => String::new(),
            };
            let ghost before = string_pairs(items@);
            let item = (l, string_of(&text));
            items.push(item);
            proof {
                assert(string_pairs(items@) =~= before.push((item.0@, item.1@)));
            }
            lang = None;
            text = Vec::new();
            in_li = false;
        }
        k = k + 1;
    }
    items
}

/// The decoded text of the text events of `evs[lo..hi]`, joined.
fn text_of(evs: &Vec<XmlEvent>, lo: usize, hi: usize) -> (r: String)
    requires
        lo <= hi <= evs@.len(),
    ensures
        r@ == all_text(events_view(evs@).subrange(lo as int, hi as int)),
{
    let ghost ev = events_view(evs@);
    let mut out: Vec<char> = Vec::new();
    let mut k = lo;
    proof {
        assert(ev.subrange(lo as int, lo as int) =~= Seq::<XmlEventView>::empty());
    }
    while k < hi
        invariant
            ev == events_view(evs@),
            lo <= k <= hi <= evs@.len(),
            out@ == all_text(ev.subrange(lo as int, k as int)),
        decreases hi - k,
    {
        proof {
            assert(ev.subrange(lo as int, k + 1).drop_last() =~= ev.subrange(lo as int, k as int));
            assert(ev.subrange(lo as int, k + 1).last() == ev[k as int]);
            assert(ev[k as int] == event_view(evs@[k as int]));
        }
        if evs[k].kind == XmlKind::Text {
            let t = decode_entities(evs[k].name.as_str());
            push_chars(&mut out, &chars_of(t.as_str()));
        } else {
            proof {
                assert(out@ =~= out@ + Seq::<char>::empty());
            }
        }
        k = k + 1;
    }
    string_of(&out)
}

/// The events `evs[lo..hi]` as written back, joined, as text.
fn written_of(evs: &Vec<XmlEvent>, lo: usize, hi: usize) -> (r: String)
    requires
        lo <= hi <= evs@.len(),
    ensures
        r@ == utf8_or_empty(all_written(events_view(evs@).subrange(lo as int, hi as int))),
{
    let ghost ev = events_view(evs@);
    let mut out: Vec<u8> = Vec::new();
    let mut k = lo;
    proof {
        assert(ev.subrange(lo as int, lo as int) =~= Seq::<XmlEventView>::empty());
    }
    while k < hi
        invariant
            ev == events_view(evs@),
            lo <= k <= hi <= evs@.len(),
            out@ == all_written(ev.subrange(lo as int, k as int)),
        decreases hi - k,
    {
        proof {
            assert(ev.subrange(lo as int, k + 1).drop_last() =~= ev.subrange(lo as int, k as int));
            assert(ev.subrange(lo as int, k + 1).last() == ev[k as int]);
            assert(ev[k as int] == event_view(evs@[k as int]));
        }
        let ghost before = out@;
        let mut m: usize = 0;
        while m < evs[k].written.len()
            invariant
                k < evs@.len(),
                m <= evs@[k as int].written@.len(),
                out@ == before + evs@[k as int].written@.take(m as int),
            decreases evs@[k as int].written@.len() - m,
        {
            out.push(evs[k].written[m]);
            proof {
                assert(out@ =~= before + evs@[k as int].written@.take(m + 1));
            }
            m = m + 1;
        }
        proof {
            assert(evs@[k as int].written@.take(m as int) =~= evs@[k as int].written@);
        }
        k = k + 1;
    }
    text_or_empty(&out)
}

/// The value of the property whose events are `evs[lo..hi]`.
fn classify_prop(evs: &Vec<XmlEvent>, lo: usize, hi: usize, map: &Vec<(String, String)>) -> (r: PropValue)
    requires
        lo + 2 <= hi <= evs@.len(),
    ensures
        value_view(r) == classified(events_view(evs@).subrange(lo as int, hi as int), string_pairs(map@)),
{
    let ghost ev = events_view(evs@);
    let ghost sub = ev.subrange(lo as int, hi as int);
    proof {
        assert(sub.subrange(1, sub.len() - 1) =~= ev.subrange(lo + 1, hi - 1));
    }
    let (container, nested) = scan_inner_exec(evs, lo + 1, hi - 1, map);
    match container {
        Some(k) => {
            let items = li_items(evs, lo, hi, map);
            match k {
                Container::Alt => {
                    let r = PropValue::LangAlt(items);
                    r
                },
                Container::Sequence => {
                    let vals = values_of(&items);
                    PropValue::Array(ArrayKind::Sequence, vals)
                },
                Container::Bag => {
                    let vals = values_of(&items);
                    PropValue::Array(ArrayKind::Bag, vals)
                },
            }
        },
        None => if !nested {
            PropValue::Simple(text_of(evs, lo, hi))
        } else {
            PropValue::Raw(written_of(evs, lo, hi))
        },
    }
}

fn values_of(items: &Vec<(String, String)>) -> (r: Vec<String>)
    ensures
        strings_view(r@) == item_values(string_pairs(items@)),
{
    let mut r: Vec<String> = Vec::new();
    let mut k: usize = 0;
    while k < items.len()
        invariant
            k <= items@.len(),
            r@.len() == k,
            strings_view(r@) == item_values(string_pairs(items@)).take(k as int),
        decreases items@.len() - k,
    {
        let v = items[k].1.clone();
        r.push(v);
        proof {
            assert(strings_view(r@)[k as int] == v@);
            assert(strings_view(r@) =~= item_values(string_pairs(items@)).take(k + 1));
        }
        k = k + 1;
    }
    proof {
        assert(item_values(string_pairs(items@)).take(items@.len() as int) =~= item_values(
            string_pairs(items@),
        ));
    }
    r
}

fn subtree_end_exec(evs: &Vec<XmlEvent>, start: usize) -> (end: usize)
    requires
        1 <= start <= evs@.len(),
    ensures
        end == subtree_end(events_view(evs@), start as int, 1),
        start <= end <= evs@.len(),
{
    let ghost ev = events_view(evs@);
    let mut j = start;
    let mut depth: usize = 1;
    proof {
        lemma_subtree_end_bounds(ev, start as int, 1);
    }
    while depth > 0 && j < evs.len()
        invariant
            ev == events_view(evs@),
            1 <= start <= j <= evs@.len(),
            depth <= j - start + 1,
            subtree_end(ev, start as int, 1) == subtree_end(ev, j as int, depth as int),
        decreases evs@.len() - j,
    {
        proof {
            assert(ev[j as int] == event_view(evs@[j as int]));
        }
        if evs[j].kind == XmlKind::Start {
            depth = depth + 1;
        } else if evs[j].kind == XmlKind::End {
            depth = depth - 1;
        }
        j = j + 1;
    }
    j
}

/// The attribute-form properties of `rdf:Description`.
fn description_attr_props(attrs: &Vec<(String, String)>, map: &Vec<(String, String)>) -> (r: Vec<XmpProp>)
    ensures
        props_view(r@) == attr_props(string_pairs(attrs@), string_pairs(map@)),
{
    let ghost av = string_pairs(attrs@);
    let ghost mv = string_pairs(map@);
    let mut out: Vec<XmpProp> = Vec::new();
    let mut k: usize = 0;
    proof {
        assert(props_view(out@) =~= Seq::<PropView>::empty());
    }
    while k < attrs.len()
        invariant
            av == string_pairs(attrs@),
            mv == string_pairs(map@),
            k <= attrs@.len(),
            props_view(out@) == attr_props(av.take(k as int), mv),
        decreases attrs@.len() - k,
    {
        proof {
            assert(av.take(k + 1).drop_last() =~= av.take(k as int));
            assert(av.take(k + 1).last() == av[k as int]);
        }
        let key = chars_of(attrs[k].0.as_str());
        let xmlns = chars_of("xmlns:");
        proof {
            reveal_strlit("xmlns:");
        }
        let mut is_decl = false;
        if key.len() >= 6 {
            let mut head: Vec<char> = Vec::new();
            let mut m: usize = 0;
            while m < 6
                invariant
                    key@.len() >= 6,
                    m <= 6,
                    head@ == key@.take(m as int),
                decreases 6 - m,
            {
                head.push(key[m]);
                proof {
                    assert(head@ =~= key@.take(m + 1));
                }
                m = m + 1;
            }
            is_decl = crate::text::chars_eq(&head, &xmlns);
        }
        let (ans, al) = resolve_prefix(attrs[k].0.as_str(), map);
        let ans_len = ans.unicode_len();
        if !str_eq(attrs[k].0.as_str(), "rdf:about") && !str_eq(attrs[k].0.as_str(), "xmlns") && !is_decl
            && ans_len > 0 {
            let ghost before = props_view(out@);
            let p = XmpProp {
                raw_name: attrs[k].0.clone(),
                ns: ans,
                local: al,
                value: PropValue::Simple(decode_entities(attrs[k].1.as_str())),
            };
            out.push(p);
            proof {
                assert(props_view(out@) =~= before.push(prop_view(p)));
            }
        }
        k = k + 1;
    }
    proof {
        assert(av.take(attrs@.len() as int) =~= av);
    }
    out
}

/// The document a packet's events describe (see `doc_of_events`).
pub fn doc_from_events(evs: &Vec<XmlEvent>, map: &Vec<(String, String)>) -> (d: XmpDoc)
    requires
        !doc_read_fails(events_view(evs@), string_pairs(map@)),
    ensures
        d@ == doc_of_events(events_view(evs@), string_pairs(map@)),
{
    let ghost ev = events_view(evs@);
    let ghost mv = string_pairs(map@);
    let namespaces = table_of(map);
    let mut i: usize = 0;
    let mut found = false;
    while i < evs.len() && !found
        invariant
            ev == events_view(evs@),
            mv == string_pairs(map@),
            i <= evs@.len(),
            description_at(ev, mv, 0) == description_at(ev, mv, i as int),
            found ==> i < evs@.len() && description_at(ev, mv, i as int) == Some(i as int),
        decreases evs@.len() - i + if found { 0int } else { 1int },
    {
        proof {
            assert(ev[i as int] == event_view(evs@[i as int]));
        }
        let e = &evs[i];
        if e.kind == XmlKind::Start || e.kind == XmlKind::Empty {
            let (ns, local) = resolve_prefix(e.name.as_str(), map);
            if str_eq(ns.as_str(), NS_RDF) && str_eq(local.as_str(), "Description") {
                found = true;
            }
        }
        if !found {
            i = i + 1;
        }
    }
    let mut props: Vec<XmpProp> = Vec::new();
    if !found {
        let d = XmpDoc { namespaces, props };
        proof {
            assert(props_view(d.props@) =~= Seq::<PropView>::empty());
        }
        return d;
    }
    proof {
        assert(ev[i as int] == event_view(evs@[i as int]));
    }
    props = description_attr_props(&evs[i].attrs, map);
    let ghost head = props_view(props@);
    if evs[i].kind == XmlKind::Start {
        let mut j = i + 1;
        let mut done = false;
        proof {
            assert(head + children_props(ev, j as int, mv) =~= head + children_props(ev, (i + 1) as int, mv));
        }
        while j < evs.len() && !done
            invariant
                ev == events_view(evs@),
                mv == string_pairs(map@),
                i < j <= evs@.len(),
                done ==> children_props(ev, j as int, mv) == Seq::<PropView>::empty(),
                !ends_in_open_child(ev, j as int),
                props_view(props@) + children_props(ev, j as int, mv) == head + children_props(
                    ev,
                    (i + 1) as int,
                    mv,
                ),
            decreases evs@.len() - j + if done { 0int } else { 1int },
        {
            proof {
                assert(ev[j as int] == event_view(evs@[j as int]));
            }
            let e = &evs[j];
            if e.kind == XmlKind::Start {
                let end = subtree_end_exec(evs, j + 1);
                proof {
                    assert(j + 1 < evs@.len());
                    let d2: int = if ev[j + 1].kind == XmlKind::Start {
                        2
                    } else if ev[j + 1].kind == XmlKind::End {
                        0
                    } else {
                        1
                    };
                    assert(subtree_end(ev, j + 1, 1) == subtree_end(ev, j + 2, d2));
                    lemma_subtree_end_bounds(ev, j + 2, d2);
                    assert(!ends_in_open_child(ev, end as int));
                }
                let (ns, local) = resolve_prefix(e.name.as_str(), map);
                let value = classify_prop(evs, j, end, map);
                let ghost before = props_view(props@);
                let p = XmpProp { raw_name: e.name.clone(), ns, local, value };
                props.push(p);
                proof {
                    assert(prop_view(p) == element_prop(ev, j as int, end as int, mv));
                    assert(props_view(props@) =~= before.push(prop_view(p)));
                    assert(before + children_props(ev, j as int, mv) =~= props_view(props@)
                        + children_props(ev, end as int, mv));
                }
                j = end;
            } else if e.kind == XmlKind::Empty {
                let (ns, local) = resolve_prefix(e.name.as_str(), map);
                let ghost before = props_view(props@);
                let p = XmpProp { raw_name: e.name.clone(), ns, local, value: PropValue::Simple(String::new()) };
                props.push(p);
                proof {
                    assert(props_view(props@) =~= before.push(prop_view(p)));
                    assert(before + children_props(ev, j as int, mv) =~= props_view(props@)
                        + children_props(ev, j + 1, mv));
                }
                j = j + 1;
            } else if e.kind == XmlKind::End {
                proof {
                    assert(props_view(props@) + children_props(ev, j as int, mv) =~= props_view(props@));
                }
                done = true;
            } else {
                j = j + 1;
            }
        }
        proof {
            assert(children_props(ev, j as int, mv) == Seq::<PropView>::empty());
            assert(props_view(props@) =~= props_view(props@) + Seq::<PropView>::empty());
        }
    } else {
        proof {
            assert(head + Seq::<PropView>::empty() =~= head);
        }
    }
    XmpDoc { namespaces, props }
}


// ---------------------------------------------------------------------------
// Public reading and merging
// ---------------------------------------------------------------------------

/// The document an XMP packet describes.
pub open spec fn xmp_doc_of(xml: Seq<char>) -> DocView {
    doc_of_events(xml_events_of(xml), ns_map_entries(xml))
}

/// Whether reading the packet's document meets a property start tag with no
/// event after it, where the reading cannot complete.
pub open spec fn xmp_doc_unreadable(xml: Seq<char>) -> bool {
    doc_read_fails(xml_events_of(xml), ns_map_entries(xml))
}

fn read_fails(evs: &Vec<XmlEvent>, map: &Vec<(String, String)>) -> (b: bool)
    ensures
        b == doc_read_fails(events_view(evs@), string_pairs(map@)),
{
    let ghost ev = events_view(evs@);
    let ghost mv = string_pairs(map@);
    let mut i: usize = 0;
    let mut found = false;
    while i < evs.len() && !found
        invariant
            ev == events_view(evs@),
            mv == string_pairs(map@),
            i <= evs@.len(),
            description_at(ev, mv, 0) == description_at(ev, mv, i as int),
            found ==> i < evs@.len() && description_at(ev, mv, i as int) == Some(i as int),
        decreases evs@.len() - i + if found { 0int } else { 1int },
    {
        proof {
            assert(ev[i as int] == event_view(evs@[i as int]));
        }
        let e = &evs[i];
        if e.kind == XmlKind::Start || e.kind == XmlKind::Empty {
            let (ns, local) = resolve_prefix(e.name.as_str(), map);
            if str_eq(ns.as_str(), NS_RDF) && str_eq(local.as_str(), "Description") {
                found = true;
            }
        }
        if !found {
            i = i + 1;
        }
    }
    if !found {
        return false;
    }
    proof {
        assert(ev[i as int] == event_view(evs@[i as int]));
    }
    if evs[i].kind != XmlKind::Start {
        return false;
    }
    let mut j = i + 1;
    while j < evs.len()
        invariant
            ev == events_view(evs@),
            mv == string_pairs(map@),
            description_at(ev, mv, 0) == Some(i as int),
            ev[i as int].kind == XmlKind::Start,
            i < j <= evs@.len(),
            ends_in_open_child(ev, (i + 1) as int) == ends_in_open_child(ev, j as int),
        decreases evs@.len() - j,
    {
        proof {
            assert(ev[j as int] == event_view(evs@[j as int]));
        }
        let e = &evs[j];
        if e.kind == XmlKind::Start {
            if j + 1 >= evs.len() {
                proof {
                    assert(ends_in_open_child(ev, j as int));
                }
                return true;
            }
            let end = subtree_end_exec(evs, j + 1);
            j = end;
        } else if e.kind == XmlKind::End {
            return false;
        } else {
            j = j + 1;
        }
    }
    false
}

/// The round-trippable document of an XMP packet.
pub fn parse_xmp_doc(xml: &str) -> (d: XmpDoc)
    requires
        !xmp_doc_unreadable(xml@),
    ensures
        d@ == xmp_doc_of(xml@),
{
    let map = build_ns_map(xml);
    let events = xml_events(xml);
    doc_from_events(&events, &map)
}

/// The round-trippable document of an XMP packet, or `None` when its reading
/// cannot complete (a property start tag with nothing after it).
pub fn try_parse_xmp_doc(xml: &str) -> (d: Option<XmpDoc>)
    ensures
        match d {
            Some(doc) => !xmp_doc_unreadable(xml@) && doc@ == xmp_doc_of(xml@),
            None => xmp_doc_unreadable(xml@),
        },
{
    let map = build_ns_map(xml);
    let events = xml_events(xml);
    if read_fails(&events, &map) {
        None
    } else {
        Some(doc_from_events(&events, &map))
    }
}

/// The document a sidecar is merged into: the existing packet's document
/// when there is a non-blank one, a new document otherwise.
pub open spec fn merge_base(existing: Option<Seq<char>>) -> DocView {
    match existing {
        Some(x) => if trim_spec(x).len() > 0 {
            xmp_doc_of(x)
        } else {
            default_doc()
        },
        None => default_doc(),
    }
}

/// Whether an existing packet's document can be read for a merge.
pub open spec fn merge_readable(existing: Option<Seq<char>>) -> bool {
    match existing {
        Some(x) => trim_spec(x).len() > 0 ==> !xmp_doc_unreadable(x),
        None => true,
    }
}

/// The value of an optional text.
pub open spec fn opt_text_of(o: Option<&str>) -> Option<Seq<char>> {
    match o {
        Some(x) => Some(x@),
        None => None,
    }
}

/// Merges IsomFolio's fields into an existing sidecar (when there is a
/// non-blank one), keeping every other property and namespace, and writes
/// the packet.
pub fn merge_sidecar(existing: Option<&str>, meta: &XmpMetadata, subjects: &[String]) -> (r: String)
    requires
        merge_readable(opt_text_of(existing)),
    ensures
        r@ == doc_text(merged_doc(merge_base(opt_text_of(existing)), *meta, strings_view(subjects@))),
{
    let doc = match existing {
        Some(x) => {
            let t = trim_chars(&chars_of(x));
            if t.len() > 0 {
                parse_xmp_doc(x)
            } else {
                XmpDoc::with_default_ns()
            }
        },
        None => XmpDoc::with_default_ns(),
    };
    merge_doc(doc, meta, subjects)
}

/// `merge_sidecar`, or `None` when the existing packet's document cannot be
/// read.
pub fn try_merge_sidecar(existing: Option<&str>, meta: &XmpMetadata, subjects: &[String]) -> (r: Option<String>)
    ensures
        match r {
            Some(s) => merge_readable(opt_text_of(existing)) && s@ == doc_text(
                merged_doc(merge_base(opt_text_of(existing)), *meta, strings_view(subjects@)),
            ),
            None => !merge_readable(opt_text_of(existing)),
        },
{
    match existing {
        Some(x) => {
            let t = trim_chars(&chars_of(x));
            if t.len() > 0 {
                match try_parse_xmp_doc(x) {
                    Some(doc) => Some(merge_doc(doc, meta, subjects)),
                    None => None,
                }
            } else {
                Some(merge_doc(XmpDoc::with_default_ns(), meta, subjects))
            }
        },
        None => Some(merge_doc(XmpDoc::with_default_ns(), meta, subjects)),
    }
}

// ---------------------------------------------------------------------------
// Embedded packets
// ---------------------------------------------------------------------------

/// Whether `m` sets no managed field.
pub fn meta_is_empty(m: &XmpMetadata) -> (b: bool)
    ensures
        b == (meta_view(*m) == empty_meta()),
{
    let b = m.core.rating.is_none() && m.core.label.is_none() && m.core.create_date.is_none()
        && m.core.modify_date.is_none() && m.dublin_core.title.is_none()
        && m.dublin_core.description.is_none() && m.dublin_core.creator.len() == 0
        && m.dublin_core.subject.len() == 0 && m.dublin_core.rights.is_none();
    proof {
        if b {
            assert(strings_view(m.dublin_core.creator@) =~= Seq::<Seq<char>>::empty());
            assert(strings_view(m.dublin_core.subject@) =~= Seq::<Seq<char>>::empty());
        }
    }
    b
}

/// The managed fields of a packet, or none when it sets none.
pub fn fields_if_any(m: XmpMetadata) -> (r: Option<XmpMetadata>)
    ensures
        match r {
            Some(x) => meta_view(x) == meta_view(m) && meta_view(m) != empty_meta(),
            None => meta_view(m) == empty_meta(),
        },
{
    if meta_is_empty(&m) {
        None
    } else {
        Some(m)
    }
}

/// The first index at or after `from` where `needle` occurs in `h`.
fn find_bytes(h: &[u8], needle: &[u8], from: usize) -> (r: Option<usize>)
    ensures
        match r {
            Some(j) => find_from(h@, needle@, from as int) == Some(j as int),
            None => find_from(h@, needle@, from as int) is None,
        },
{
    let mut j = from;
    while j <= h.len() && needle.len() <= h.len() - j
        invariant
            from <= j,
            find_from(h@, needle@, from as int) == find_from(h@, needle@, j as int),
        decreases h@.len() + 1 - j,
    {
        let mut k: usize = 0;
        let mut same = true;
        while k < needle.len() && same
            invariant
                j + needle@.len() <= h@.len(),
                k <= needle@.len(),
                same ==> forall|m: int| 0 <= m < k ==> h@[j + m] == needle@[m],
                !same ==> k > 0 && h@[j + k - 1] != needle@[k - 1],
            decreases needle@.len() - k + if same { 1int } else { 0int },
        {
            assert(j + k < h@.len());
            assert(h@.len() == h.len());
            if h[j + k] != needle[k] {
                same = false;
            }
            k = k + 1;
        }
        proof {
            if same {
                assert(h@.subrange(j as int, j + needle@.len()) =~= needle@);
            } else {
                assert(h@.subrange(j as int, j + needle@.len())[k - 1] != needle@[k - 1]);
            }
        }
        if same {
            return Some(j);
        }
        if j == h.len() {
            proof {
                assert(h@.subrange(j as int, j as int) =~= needle@);
            }
            return None;
        }
        j = j + 1;
    }
    None
}

/// Byte range of the XMP packet in `d`: from the first `<x:xmpmeta` (or,
/// when there is none, the first `<xmpmeta`) to the end of the first
/// `</x:xmpmeta>` after it (or, when there is none, of the first
/// `</xmpmeta>`).
pub open spec fn packet_range(d: Seq<u8>) -> Option<(int, int)> {
    let start = match find_from(d, "<x:xmpmeta".spec_bytes(), 0) {
        Some(s) => Some(s),
        None => find_from(d, "<xmpmeta".spec_bytes(), 0),
    };
    match start {
        None => None,
        Some(s) => match find_from(d, "</x:xmpmeta>".spec_bytes(), s) {
            Some(p) => Some((s, p + "</x:xmpmeta>".spec_bytes().len())),
            None => match find_from(d, "</xmpmeta>".spec_bytes(), s) {
                Some(p) => Some((s, p + "</xmpmeta>".spec_bytes().len())),
                None => None,
            },
        },
    }
}

/// The managed fields of the XMP packet embedded in an image's bytes: none
/// without the XMP namespace, without a packet, when the packet is not UTF-8,
/// or when it sets no field.
pub open spec fn embedded_fields(d: Seq<u8>) -> Option<MetaView> {
    if find_from(d, NS_XMP.spec_bytes(), 0) is None {
        None
    } else {
        match packet_range(d) {
            None => None,
            Some((s, e)) => {
                let p = d.subrange(s, e);
                if !valid_utf8(p) {
                    None
                } else {
                    let m = xmp_fields(decode_utf8(p));
                    if m == empty_meta() {
                        None
                    } else {
                        Some(m)
                    }
                }
            },
        }
    }
}

/// The byte range of the XMP packet in `d`.
pub fn find_xmp_packet(d: &[u8]) -> (r: Option<(usize, usize)>)
    ensures
        match r {
            Some((s, e)) => packet_range(d@) == Some((s as int, e as int)) && s <= e <= d@.len(),
            None => packet_range(d@) is None,
        },
{
    let start = match find_bytes(d, "<x:xmpmeta".as_bytes(), 0) {
        Some(s) => s,
        None => match find_bytes(d, "<xmpmeta".as_bytes(), 0) {
            Some(s) => s,
            None => {
                return None;
            },
        },
    };
    let end1 = "</x:xmpmeta>".as_bytes();
    let end2 = "</xmpmeta>".as_bytes();
    proof {
        crate::xml::lemma_find_from_bounds(d@, "<x:xmpmeta".spec_bytes(), 0);
        crate::xml::lemma_find_from_bounds(d@, "<xmpmeta".spec_bytes(), 0);
    }
    match find_bytes(d, end1, start) {
        Some(p) => {
            proof {
                crate::xml::lemma_find_from_bounds(d@, end1@, start as int);
                assert(d@.len() == d.len());
                assert(end1@.len() == end1.len());
            }
            Some((start, p + end1.len()))
        },
        None => match find_bytes(d, end2, start) {
            Some(p) => {
                proof {
                    crate::xml::lemma_find_from_bounds(d@, end2@, start as int);
                    assert(d@.len() == d.len());
                    assert(end2@.len() == end2.len());
                }
                Some((start, p + end2.len()))
            },
            None => None,
        },
    }
}

/// The managed fields of the XMP packet embedded in an image's bytes.
pub fn parse_embedded_from_bytes(data: &[u8]) -> (r: Option<XmpMetadata>)
    ensures
        match r {
            Some(m) => embedded_fields(data@) == Some(meta_view(m)),
            None => embedded_fields(data@) is None,
        },
{
    if find_bytes(data, NS_XMP.as_bytes(), 0).is_none() {
        return None;
    }
    let (s, e) = match find_xmp_packet(data) {
        Some(r) => r,
        None => {
            return None;
        },
    };
    let mut packet: Vec<u8> = Vec::new();
    let mut k = s;
    while k < e
        invariant
            s <= k <= e <= data@.len(),
            packet@ == data@.subrange(s as int, k as int),
        decreases e - k,
    {
        packet.push(data[k]);
        proof {
            assert(packet@ =~= data@.subrange(s as int, k + 1));
        }
        k = k + 1;
    }
    let text = match utf8_text(packet.as_slice()) {
        Some(t) => t,
        None => {
            return None;
        },
    };
    let m = parse_xmp_xml(text.as_str());
    fields_if_any(m)
}

} // verus!
