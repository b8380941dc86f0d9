//! Reading the managed fields out of an XMP packet: a walk over its XML
//! events that follows `rdf:Description`, its property elements, RDF
//! containers and their `rdf:li` items.

use vstd::prelude::*;
use crate::text::{chars_of, string_of, push_chars, str_eq};
use crate::apple::{parse_i32_text, parse_i32_chars};
use crate::thumbnail_queue::strings_view;
use crate::xml::{
    XmlEvent, XmlEventView, XmlKind, event_view, events_view, string_pairs, resolved, decoded,
    xml_events_of, ns_map_entries, xml_events, build_ns_map, resolve_prefix, decode_entities,
};
use crate::xmp::{XmpCore, DublinCore, XmpMetadata, NS_XMP, NS_DC, NS_RDF, NS_XML};

verus! {

/// The value of the managed fields.
pub struct MetaView {
    pub rating: Option<i32>,
    pub label: Option<Seq<char>>,
    pub create_date: Option<Seq<char>>,
    pub modify_date: Option<Seq<char>>,
    pub title: Option<Seq<char>>,
    pub description: Option<Seq<char>>,
    pub creator: Seq<Seq<char>>,
    pub subject: Seq<Seq<char>>,
    pub rights: Option<Seq<char>>,
}

/// The value of an optional string.
pub open spec fn opt_str(o: Option<String>) -> Option<Seq<char>> {
    match o {
        Some(s) => Some(s@),
        None => None,
    }
}

/// The value of managed metadata.
pub open spec fn meta_view(m: XmpMetadata) -> MetaView {
    MetaView {
        rating: m.core.rating,
        label: opt_str(m.core.label),
        create_date: opt_str(m.core.create_date),
        modify_date: opt_str(m.core.modify_date),
        title: opt_str(m.dublin_core.title),
        description: opt_str(m.dublin_core.description),
        creator: strings_view(m.dublin_core.creator@),
        subject: strings_view(m.dublin_core.subject@),
        rights: opt_str(m.dublin_core.rights),
    }
}

/// No managed field is set.
pub open spec fn empty_meta() -> MetaView {
    MetaView {
        rating: None,
        label: None,
        create_date: None,
        modify_date: None,
        title: None,
        description: None,
        creator: Seq::empty(),
        subject: Seq::empty(),
        rights: None,
    }
}

/// Where the walk is: inside `rdf:Description`; the property element being
/// read; inside an RDF container; inside an `rdf:li` (and whether it is the
/// `x-default` one); the text gathered; the fields read so far; the items and
/// `x-default` text of the current container; and the open elements.
pub struct WalkView {
    pub in_description: bool,
    pub current_prop: Option<(Seq<char>, Seq<char>)>,
    pub in_container: bool,
    pub in_li: bool,
    pub li_is_xdefault: bool,
    pub li_text: Seq<char>,
    pub meta: MetaView,
    pub list_items: Seq<Seq<char>>,
    pub alt_xdefault: Option<Seq<char>>,
    pub stack: Seq<(Seq<char>, Seq<char>)>,
}

/// The walk before the first event.
pub open spec fn walk_start() -> WalkView {
    WalkView {
        in_description: false,
        current_prop: None,
        in_container: false,
        in_li: false,
        li_is_xdefault: false,
        li_text: Seq::empty(),
        meta: empty_meta(),
        list_items: Seq::empty(),
        alt_xdefault: None,
        stack: Seq::empty(),
    }
}

/// The fields an `rdf:Description`'s attributes set, in order: `xmp:Rating`
/// (parsed; unset when it does not parse), `xmp:Label`, `xmp:CreateDate` and
/// `xmp:ModifyDate`, with references decoded.
pub open spec fn description_attrs(
    m: MetaView,
    attrs: Seq<(Seq<char>, Seq<char>)>,
    map: Seq<(Seq<char>, Seq<char>)>,
) -> MetaView
    decreases attrs.len(),
{
    if attrs.len() == 0 {
        m
    } else {
        let m1 = description_attrs(m, attrs.drop_last(), map);
        let (key, raw) = attrs.last();
        let val = decoded(raw);
        let (ans, al) = resolved(key, map);
        if ans != NS_XMP@ {
            m1
        } else if al == "Rating"@ {
            MetaView { rating: parse_i32_text(val), ..m1 }
        } else if al == "Label"@ {
            MetaView { label: Some(val), ..m1 }
        } else if al == "CreateDate"@ {
            MetaView { create_date: Some(val), ..m1 }
        } else if al == "ModifyDate"@ {
            MetaView { modify_date: Some(val), ..m1 }
        } else {
            m1
        }
    }
}

/// Whether some attribute is `xml:lang="x-default"` (raw value).
pub open spec fn has_xdefault(attrs: Seq<(Seq<char>, Seq<char>)>, map: Seq<(Seq<char>, Seq<char>)>) -> bool
    decreases attrs.len(),
{
    attrs.len() > 0 && (has_xdefault(attrs.drop_last(), map) || (resolved(attrs.last().0, map)
        == (NS_XML@, "lang"@) && attrs.last().1 == "x-default"@))
}

/// The walk after a start or empty tag.
pub open spec fn start_step(
    st: WalkView,
    name: Seq<char>,
    attrs: Seq<(Seq<char>, Seq<char>)>,
    map: Seq<(Seq<char>, Seq<char>)>,
) -> WalkView {
    let (ns, local) = resolved(name, map);
    let st1 = if ns == NS_RDF@ && local == "Description"@ {
        WalkView { in_description: true, meta: description_attrs(st.meta, attrs, map), ..st }
    } else {
        st
    };
    let st2 = if st1.in_description && (ns == NS_DC@ || ns == NS_XMP@) {
        WalkView {
            current_prop: Some((ns, local)),
            list_items: Seq::empty(),
            alt_xdefault: None,
            in_container: false,
            ..st1
        }
    } else {
        st1
    };
    let st3 = if ns == NS_RDF@ && (local == "Alt"@ || local == "Seq"@ || local == "Bag"@) {
        WalkView { in_container: true, ..st2 }
    } else {
        st2
    };
    let st4 = if ns == NS_RDF@ && local == "li"@ {
        WalkView {
            in_li: true,
            li_text: Seq::empty(),
            li_is_xdefault: has_xdefault(attrs, map),
            ..st3
        }
    } else {
        st3
    };
    let st5 = if ns == NS_XMP@ && st4.in_description && !st4.in_li {
        WalkView { current_prop: Some((ns, local)), li_text: Seq::empty(), ..st4 }
    } else {
        st4
    };
    WalkView { stack: st5.stack.push((ns, local)), ..st5 }
}

/// The first item of a container, if any.
pub open spec fn first_item(items: Seq<Seq<char>>) -> Option<Seq<char>> {
    if items.len() > 0 {
        Some(items[0])
    } else {
        None
    }
}

/// The `x-default` text, or else the first item.
pub open spec fn alt_or_first(alt: Option<Seq<char>>, items: Seq<Seq<char>>) -> Option<Seq<char>> {
    match alt {
        Some(a) => Some(a),
        None => first_item(items),
    }
}

/// The fields after closing the property element `pns:pl`, given its items,
/// its `x-default` text and its inline text.
pub open spec fn close_prop(
    m: MetaView,
    pns: Seq<char>,
    pl: Seq<char>,
    items: Seq<Seq<char>>,
    alt: Option<Seq<char>>,
    inline: Seq<char>,
) -> MetaView {
    if pns == NS_XMP@ {
        if pl == "Rating"@ {
            MetaView { rating: parse_i32_text(inline), ..m }
        } else if pl == "Label"@ && inline.len() > 0 {
            MetaView { label: Some(inline), ..m }
        } else if pl == "CreateDate"@ && inline.len() > 0 {
            MetaView { create_date: Some(inline), ..m }
        } else if pl == "ModifyDate"@ && inline.len() > 0 {
            MetaView { modify_date: Some(inline), ..m }
        } else {
            m
        }
    } else if pns == NS_DC@ {
        if pl == "title"@ {
            MetaView { title: alt_or_first(alt, items), ..m }
        } else if pl == "description"@ {
            MetaView { description: alt_or_first(alt, items), ..m }
        } else if pl == "creator"@ {
            MetaView { creator: items, ..m }
        } else if pl == "subject"@ {
            MetaView { subject: items, ..m }
        } else if pl == "rights"@ {
            MetaView { rights: alt_or_first(alt, items), ..m }
        } else {
            m
        }
    } else {
        m
    }
}

/// The walk after an end tag: the innermost open element is closed; an
/// `rdf:li` hands its text to the container; the current property element
/// stores what it gathered; `rdf:Description` ends the description.
pub open spec fn end_step(st: WalkView) -> WalkView {
    if st.stack.len() == 0 {
        st
    } else {
        let (tns, tl) = st.stack.last();
        let st0 = WalkView { stack: st.stack.drop_last(), ..st };
        if tns == NS_RDF@ && tl == "li"@ {
            let text = st0.li_text;
            WalkView {
                li_text: Seq::empty(),
                alt_xdefault: if st0.in_li && st0.li_is_xdefault {
                    Some(text)
                } else {
                    st0.alt_xdefault
                },
                list_items: if st0.in_li && text.len() > 0 {
                    st0.list_items.push(text)
                } else {
                    st0.list_items
                },
                in_li: false,
                ..st0
            }
        } else {
            let st1 = match st0.current_prop {
                Some((pns, pl)) => if tns == pns && tl == pl {
                    WalkView {
                        list_items: Seq::empty(),
                        alt_xdefault: None,
                        li_text: Seq::empty(),
                        meta: close_prop(
                            st0.meta,
                            pns,
                            pl,
                            st0.list_items,
                            st0.alt_xdefault,
                            st0.li_text,
                        ),
                        current_prop: None,
                        in_container: false,
                        ..st0
                    }
                } else {
                    st0
                },
                None => st0,
            };
            if tns == NS_RDF@ && tl == "Description"@ {
                WalkView { in_description: false, ..st1 }
            } else {
                st1
            }
        }
    }
}

/// The walk after a text event: its decoded text is gathered inside an
/// `rdf:li`, or inside a property element outside any container.
pub open spec fn text_step(st: WalkView, raw: Seq<char>) -> WalkView {
    if st.in_li || (st.current_prop is Some && !st.in_container) {
        WalkView { li_text: st.li_text + decoded(raw), ..st }
    } else {
        st
    }
}

/// The walk after one event.
pub open spec fn walk_step(st: WalkView, e: XmlEventView, map: Seq<(Seq<char>, Seq<char>)>) -> WalkView {
    match e.kind {
        XmlKind::Start => start_step(st, e.name, e.attrs, map),
        XmlKind::Empty => start_step(st, e.name, e.attrs, map),
        XmlKind::End => end_step(st),
        XmlKind::Text => text_step(st, e.name),
        XmlKind::Other => st,
    }
}

/// The walk after a list of events.
pub open spec fn walk(events: Seq<XmlEventView>, map: Seq<(Seq<char>, Seq<char>)>) -> WalkView
    decreases events.len(),
{
    if events.len() == 0 {
        walk_start()
    } else {
        walk_step(walk(events.drop_last(), map), events.last(), map)
    }
}

/// The managed fields an XMP packet holds.
pub open spec fn xmp_fields(xml: Seq<char>) -> MetaView {
    walk(xml_events_of(xml), ns_map_entries(xml)).meta
}

// ---------------------------------------------------------------------------
// The walk, executed
// ---------------------------------------------------------------------------

struct Walk {
    in_description: bool,
    current_prop: Option<(String, String)>,
    in_container: bool,
    in_li: bool,
    li_is_xdefault: bool,
    li_text: Vec<char>,
    meta: XmpMetadata,
    list_items: Vec<String>,
    alt_xdefault: Option<String>,
    stack: Vec<(String, String)>,
}

spec fn opt_pair(o: Option<(String, String)>) -> Option<(Seq<char>, Seq<char>)> {
    match o {
        Some(p) => Some((p.0@, p.1@)),
        None => None,
    }
}

spec fn walk_view(w: Walk) -> WalkView {
    WalkView {
        in_description: w.in_description,
        current_prop: opt_pair(w.current_prop),
        in_container: w.in_container,
        in_li: w.in_li,
        li_is_xdefault: w.li_is_xdefault,
        li_text: w.li_text@,
        meta: meta_view(w.meta),
        list_items: strings_view(w.list_items@),
        alt_xdefault: opt_str(w.alt_xdefault),
        stack: string_pairs(w.stack@),
    }
}

fn new_meta() -> (m: XmpMetadata)
    ensures
        meta_view(m) == empty_meta(),
{
    let m = XmpMetadata {
        core: XmpCore { rating: None, label: None, create_date: None, modify_date: None },
        dublin_core: DublinCore {
            title: None,
            description: None,
            creator: Vec::new(),
            subject: Vec::new(),
            rights: None,
        },
    };
    proof {
        assert(strings_view(m.dublin_core.creator@) =~= Seq::<Seq<char>>::empty());
        assert(strings_view(m.dublin_core.subject@) =~= Seq::<Seq<char>>::empty());
    }
    m
}

fn parse_i32_string(s: &str) -> (r: Option<i32>)
    ensures
        r == parse_i32_text(s@),
{
    let c = chars_of(s);
    proof {
        assert(c@.skip(0) =~= c@);
    }
    parse_i32_chars(&c, 0)
}

fn apply_description_attrs(
    meta: &mut XmpMetadata,
    attrs: &Vec<(String, String)>,
    map: &Vec<(String, String)>,
)
    ensures
        meta_view(*final(meta)) == description_attrs(
            meta_view(*old(meta)),
            string_pairs(attrs@),
            string_pairs(map@),
        ),
{
    let ghost av = string_pairs(attrs@);
    let ghost mv = string_pairs(map@);
    let mut k: usize = 0;
    while k < attrs.len()
        invariant
            av == string_pairs(attrs@),
            mv == string_pairs(map@),
            k <= attrs@.len(),
            meta_view(*meta) == description_attrs(meta_view(*old(meta)), av.take(k as int), mv),
        decreases attrs@.len() - k,
    {
        proof {
            assert(av.take(k + 1).drop_last() =~= av.take(k as int));
            assert(av.take(k + 1).last() == av[k as int]);
        }
        let val = decode_entities(attrs[k].1.as_str());
        let (ans, al) = resolve_prefix(attrs[k].0.as_str(), map);
        if str_eq(ans.as_str(), NS_XMP) {
            if str_eq(al.as_str(), "Rating") {
                meta.core.rating = parse_i32_string(val.as_str());
            } else if str_eq(al.as_str(), "Label") {
                meta.core.label = Some(val);
            } else if str_eq(al.as_str(), "CreateDate") {
                meta.core.create_date = Some(val);
            } else if str_eq(al.as_str(), "ModifyDate") {
                meta.core.modify_date = Some(val);
            }
        }
        k = k + 1;
    }
    proof {
        assert(av.take(attrs@.len() as int) =~= av);
    }
}

fn any_xdefault(attrs: &Vec<(String, String)>, map: &Vec<(String, String)>) -> (b: bool)
    ensures
        b == has_xdefault(string_pairs(attrs@), string_pairs(map@)),
{
    let ghost av = string_pairs(attrs@);
    let ghost mv = string_pairs(map@);
    let mut found = false;
    let mut k: usize = 0;
    while k < attrs.len()
        invariant
            av == string_pairs(attrs@),
            mv == string_pairs(map@),
            k <= attrs@.len(),
            found == has_xdefault(av.take(k as int), mv),
        decreases attrs@.len() - k,
    {
        proof {
            assert(av.take(k + 1).drop_last() =~= av.take(k as int));
            assert(av.take(k + 1).last() == av[k as int]);
        }
        let (ans, al) = resolve_prefix(attrs[k].0.as_str(), map);
        if str_eq(ans.as_str(), NS_XML) && str_eq(al.as_str(), "lang") && str_eq(
            attrs[k].1.as_str(),
            "x-default",
        ) {
            found = true;
        }
        k = k + 1;
    }
    proof {
        assert(av.take(attrs@.len() as int) =~= av);
    }
    found
}

fn copy_string(s: &String) -> (r: String)
    ensures
        r@ == s@,
{
    s.clone()
}

impl Walk {
    fn start(&mut self, name: &str, attrs: &Vec<(String, String)>, map: &Vec<(String, String)>)
        ensures
            walk_view(*final(self)) == start_step(
                walk_view(*old(self)),
                name@,
                string_pairs(attrs@),
                string_pairs(map@),
            ),
    {
        let (ns, local) = resolve_prefix(name, map);
        let is_rdf = str_eq(ns.as_str(), NS_RDF);
        if is_rdf && str_eq(local.as_str(), "Description") {
            self.in_description = true;
            apply_description_attrs(&mut self.meta, attrs, map);
        }
        if self.in_description && (str_eq(ns.as_str(), NS_DC) || str_eq(ns.as_str(), NS_XMP)) {
            self.current_prop = Some((copy_string(&ns), copy_string(&local)));
            self.list_items = Vec::new();
            self.alt_xdefault = None;
            self.in_container = false;
            proof {
                assert(strings_view(self.list_items@) =~= Seq::<Seq<char>>::empty());
            }
        }
        if is_rdf && (str_eq(local.as_str(), "Alt") || str_eq(local.as_str(), "Seq") || str_eq(
            local.as_str(),
            "Bag",
        )) {
            self.in_container = true;
        }
        if is_rdf && str_eq(local.as_str(), "li") {
            self.in_li = true;
            self.li_text = Vec::new();
            self.li_is_xdefault = any_xdefault(attrs, map);
        }
        if str_eq(ns.as_str(), NS_XMP) && self.in_description && !self.in_li {
            self.current_prop = Some((copy_string(&ns), copy_string(&local)));
            self.li_text = Vec::new();
        }
        let ghost before = string_pairs(self.stack@);
        self.stack.push((ns, local));
        proof {
            assert(string_pairs(self.stack@) =~= before.push((ns@, local@)));
        }
    }

    fn close(&mut self, pns: &String, pl: &String)
        ensures
            meta_view(final(self).meta) == close_prop(
                meta_view(old(self).meta),
                pns@,
                pl@,
                strings_view(old(self).list_items@),
                opt_str(old(self).alt_xdefault),
                old(self).li_text@,
            ),
            final(self).in_description == old(self).in_description,
            final(self).current_prop == old(self).current_prop,
            final(self).in_container == old(self).in_container,
            final(self).in_li == old(self).in_li,
            final(self).li_is_xdefault == old(self).li_is_xdefault,
            final(self).li_text@ == old(self).li_text@,
            strings_view(final(self).list_items@) == strings_view(old(self).list_items@),
            opt_str(final(self).alt_xdefault) == opt_str(old(self).alt_xdefault),
            string_pairs(final(self).stack@) == string_pairs(old(self).stack@),
    {
        let inline = string_of(&self.li_text);
        let first = if self.list_items.len() > 0 {
            Some(copy_string(&self.list_items[0]))
        } else {
            None
        };
        let pick = match &self.alt_xdefault {
            Some(a) => Some(copy_string(a)),
            None => first,
        };
        if str_eq(pns.as_str(), NS_XMP) {
            if str_eq(pl.as_str(), "Rating") {
                self.meta.core.rating = parse_i32_string(inline.as_str());
            } else if str_eq(pl.as_str(), "Label") && self.li_text.len() > 0 {
                self.meta.core.label = Some(inline);
            } else if str_eq(pl.as_str(), "CreateDate") && self.li_text.len() > 0 {
                self.meta.core.create_date = Some(inline);
            } else if str_eq(pl.as_str(), "ModifyDate") && self.li_text.len() > 0 {
                self.meta.core.modify_date = Some(inline);
            }
        } else if str_eq(pns.as_str(), NS_DC) {
            if str_eq(pl.as_str(), "title") {
                self.meta.dublin_core.title = pick;
            } else if str_eq(pl.as_str(), "description") {
                self.meta.dublin_core.description = pick;
            } else if str_eq(pl.as_str(), "creator") {
                self.meta.dublin_core.creator = crate::xmp::strings_clone(&self.list_items);
            } else if str_eq(pl.as_str(), "subject") {
                self.meta.dublin_core.subject = crate::xmp::strings_clone(&self.list_items);
            } else if str_eq(pl.as_str(), "rights") {
                self.meta.dublin_core.rights = pick;
            }
        }
    }

    fn end(&mut self)
        ensures
            walk_view(*final(self)) == end_step(walk_view(*old(self))),
    {
        let top = match self.stack.pop() {
            Some(t) => t,
            None => {
                return;
            },
        };
        proof {
            assert(string_pairs(self.stack@) =~= string_pairs(old(self).stack@).drop_last());
        }
        let (tns, tl) = top;
        let is_rdf = str_eq(tns.as_str(), NS_RDF);
        if is_rdf && str_eq(tl.as_str(), "li") {
            let mut text: Vec<char> = Vec::new();
            std::mem::swap(&mut text, &mut self.li_text);
            if self.in_li {
                if self.li_is_xdefault {
                    self.alt_xdefault = Some(string_of(&text));
                }
                if text.len() > 0 {
                    let ghost before = strings_view(self.list_items@);
                    let t = string_of(&text);
                    self.list_items.push(t);
                    proof {
                        assert(strings_view(self.list_items@) =~= before.push(t@));
                    }
                }
            }
            self.in_li = false;
            return;
        }
        let cur = match &self.current_prop {
            Some((pns, pl)) => Some((copy_string(pns), copy_string(pl))),
            None => None,
        };
        match cur {
            Some((pns, pl)) => {
                if str_eq(tns.as_str(), pns.as_str()) && str_eq(tl.as_str(), pl.as_str()) {
                    self.close(&pns, &pl);
                    self.list_items = Vec::new();
                    self.alt_xdefault = None;
                    self.li_text = Vec::new();
                    self.current_prop = None;
                    self.in_container = false;
                    proof {
                        assert(strings_view(self.list_items@) =~= Seq::<Seq<char>>::empty());
                    }
                }
            },
            None => {},
        }
        if is_rdf && str_eq(tl.as_str(), "Description") {
            self.in_description = false;
        }
    }

    fn text(&mut self, raw: &str)
        ensures
            walk_view(*final(self)) == text_step(walk_view(*old(self)), raw@),
    {
        if self.in_li || (self.current_prop.is_some() && !self.in_container) {
            let t = decode_entities(raw);
            push_chars(&mut self.li_text, &chars_of(t.as_str()));
        }
    }

    fn step(&mut self, e: &XmlEvent, map: &Vec<(String, String)>)
        ensures
            walk_view(*final(self)) == walk_step(walk_view(*old(self)), event_view(*e), string_pairs(map@)),
    {
        match e.kind {
            XmlKind::Start => self.start(e.name.as_str(), &e.attrs, map),
            XmlKind::Empty => self.start(e.name.as_str(), &e.attrs, map),
            XmlKind::End => self.end(),
            XmlKind::Text => self.text(e.name.as_str()),
            XmlKind::Other => {},
        }
    }
}

/// Walks a list of events with a prefix map and returns the fields read.
pub fn read_fields(events: &Vec<XmlEvent>, map: &Vec<(String, String)>) -> (m: XmpMetadata)
    ensures
        meta_view(m) == walk(events_view(events@), string_pairs(map@)).meta,
{
    let ghost ev = events_view(events@);
    let ghost mv = string_pairs(map@);
    let mut w = Walk {
        in_description: false,
        current_prop: None,
        in_container: false,
        in_li: false,
        li_is_xdefault: false,
        li_text: Vec::new(),
        meta: new_meta(),
        list_items: Vec::new(),
        alt_xdefault: None,
        stack: Vec::new(),
    };
    proof {
        assert(strings_view(w.list_items@) =~= Seq::<Seq<char>>::empty());
        assert(string_pairs(w.stack@) =~= Seq::<(Seq<char>, Seq<char>)>::empty());
        assert(w.li_text@ =~= Seq::<char>::empty());
        assert(walk_view(w) == walk_start());
        assert(ev.take(0) =~= Seq::<XmlEventView>::empty());
    }
    let mut k: usize = 0;
    while k < events.len()
        invariant
            ev == events_view(events@),
            mv == string_pairs(map@),
            k <= events@.len(),
            walk_view(w) == walk(ev.take(k as int), mv),
        decreases events@.len() - k,
    {
        proof {
            assert(ev.take(k + 1).drop_last() =~= ev.take(k as int));
            assert(ev.take(k + 1).last() == ev[k as int]);
        }
        w.step(&events[k], map);
        k = k + 1;
    }
    proof {
        assert(ev.take(events@.len() as int) =~= ev);
    }
    w.meta
}

/// The managed fields an XMP packet holds.
pub fn parse_xmp_xml(xml: &str) -> (m: XmpMetadata)
    ensures
        meta_view(m) == xmp_fields(xml@),
{
    let map = build_ns_map(xml);
    let events = xml_events(xml);
    read_fields(&events, &map)
}

} // verus!
