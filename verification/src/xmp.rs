//! XMP metadata: the managed fields (rating, label, dates, Dublin Core) and a
//! round-trippable document of an `rdf:Description`'s properties, written back
//! as a sidecar packet with every unmanaged property preserved.

use vstd::prelude::*;
use crate::text::{chars_of, string_of, push_str, push_chars, i32_to_text, int_text, trim_chars,
    trim_spec, str_eq};
use crate::thumbnail_queue::strings_view;

verus! {

/// The XMP basic fields IsomFolio manages.
#[derive(Debug, Clone, Default, PartialEq)]
pub struct XmpCore {
    pub rating: Option<i32>,
    pub label: Option<String>,
    pub create_date: Option<String>,
    pub modify_date: Option<String>,
}

/// The Dublin Core fields IsomFolio manages.
#[derive(Debug, Clone, Default, PartialEq)]
pub struct DublinCore {
    pub title: Option<String>,
    pub description: Option<String>,
    pub creator: Vec<String>,
    pub subject: Vec<String>,
    pub rights: Option<String>,
}

/// The managed metadata of one file.
#[derive(Debug, Clone, Default, PartialEq)]
pub struct XmpMetadata {
    pub core: XmpCore,
    pub dublin_core: DublinCore,
}

/// The XMP basic namespace.
pub const NS_XMP: &'static str = "http://ns.adobe.com/xap/1.0/";

/// The Dublin Core namespace.
pub const NS_DC: &'static str = "http://purl.org/dc/elements/1.1/";

/// The RDF namespace.
pub const NS_RDF: &'static str = "http://www.w3.org/1999/02/22-rdf-syntax-ns#";

/// The XML namespace.
pub const NS_XML: &'static str = "http://www.w3.org/XML/1998/namespace";

/// Kind of an RDF array.
#[derive(Debug, Clone, Copy, PartialEq, Eq)]
pub enum ArrayKind {
    Bag,
    Sequence,
}

/// The value of a property.
#[derive(Debug, Clone)]
pub enum PropValue {
    Simple(String),
    /// `(xml:lang, value)` pairs of an `rdf:Alt`.
    LangAlt(Vec<(String, String)>),
    Array(ArrayKind, Vec<String>),
    /// The element's XML, kept verbatim for shapes that are not modelled.
    Raw(String),
}

/// One property of an `rdf:Description`.
#[derive(Debug, Clone)]
pub struct XmpProp {
    /// Qualified name as written, e.g. `dc:title`.
    pub raw_name: String,
    /// Resolved namespace URI.
    pub ns: String,
    pub local: String,
    pub value: PropValue,
}

/// A round-trippable model of an XMP packet: its namespace declarations and
/// every property of its `rdf:Description`.
#[derive(Debug, Clone, Default)]
pub struct XmpDoc {
    /// `(prefix, uri)` pairs.
    pub namespaces: Vec<(String, String)>,
    pub props: Vec<XmpProp>,
}

/// The value of a property value.
pub enum ValueView {
    Simple(Seq<char>),
    LangAlt(Seq<(Seq<char>, Seq<char>)>),
    Array(ArrayKind, Seq<Seq<char>>),
    Raw(Seq<char>),
}

/// The value of a property.
pub struct PropView {
    pub raw_name: Seq<char>,
    pub ns: Seq<char>,
    pub local: Seq<char>,
    pub value: ValueView,
}

/// The value of a document.
pub struct DocView {
    pub namespaces: Seq<(Seq<char>, Seq<char>)>,
    pub props: Seq<PropView>,
}

/// Values of a list of string pairs.
pub open spec fn pairs_view(v: Seq<(String, String)>) -> Seq<(Seq<char>, Seq<char>)> {
    v.map_values(|p: (String, String)| (p.0@, p.1@))
}

/// The value of a property value.
pub open spec fn value_view(v: PropValue) -> ValueView {
    match v {
        PropValue::Simple(s) => ValueView::Simple(s@),
        PropValue::LangAlt(items) => ValueView::LangAlt(pairs_view(items@)),
        PropValue::Array(k, items) => ValueView::Array(k, strings_view(items@)),
        PropValue::Raw(s) => ValueView::Raw(s@),
    }
}

/// The value of a property.
pub open spec fn prop_view(p: XmpProp) -> PropView {
    PropView { raw_name: p.raw_name@, ns: p.ns@, local: p.local@, value: value_view(p.value) }
}

/// Values of a list of properties.
pub open spec fn props_view(v: Seq<XmpProp>) -> Seq<PropView> {
    v.map_values(|p: XmpProp| prop_view(p))
}

impl View for XmpDoc {
    type V = DocView;

    open spec fn view(&self) -> DocView {
        DocView { namespaces: pairs_view(self.namespaces@), props: props_view(self.props@) }
    }
}

// ---------------------------------------------------------------------------
// Escaping
// ---------------------------------------------------------------------------

/// The escape of one character in XML text or attribute values.
pub open spec fn escaped_char(c: char) -> Seq<char> {
    if c == '&' {
        "&amp;"@
    } else if c == '<' {
        "&lt;"@
    } else if c == '>' {
        "&gt;"@
    } else if c == '"' {
        "&quot;"@
    } else {
        seq![c]
    }
}

/// `s` with `&`, `<`, `>` and `"` escaped as entities.
pub open spec fn xml_escaped(s: Seq<char>) -> Seq<char>
    decreases s.len(),
{
    if s.len() == 0 {
        Seq::empty()
    } else {
        xml_escaped(s.drop_last()) + escaped_char(s.last())
    }
}

/// Appends the escape of `s` to `out`.
fn push_escaped(out: &mut Vec<char>, s: &str)
    ensures
        final(out)@ == old(out)@ + xml_escaped(s@),
{
    let c = chars_of(s);
    let mut k: usize = 0;
    while k < c.len()
        invariant
            c@ == s@,
            k <= c@.len(),
            out@ == old(out)@ + xml_escaped(c@.take(k as int)),
        decreases c@.len() - k,
    {
        let ghost before = out@;
        let ch = c[k];
        if ch == '&' {
            push_str(out, "&amp;");
        } else if ch == '<' {
            push_str(out, "&lt;");
        } else if ch == '>' {
            push_str(out, "&gt;");
        } else if ch == '"' {
            push_str(out, "&quot;");
        } else {
            out.push(ch);
            proof {
                assert(out@ =~= before + seq![ch]);
            }
        }
        proof {
            assert(c@.take(k + 1).drop_last() =~= c@.take(k as int));
            assert(out@ =~= old(out)@ + xml_escaped(c@.take(k + 1)));
        }
        k = k + 1;
    }
    proof {
        assert(c@.take(c@.len() as int) =~= c@);
    }
}

/// Escapes `&`, `<`, `>` and `"` for XML.
pub fn xml_escape(s: &str) -> (r: String)
    ensures
        r@ == xml_escaped(s@),
{
    let mut out: Vec<char> = Vec::new();
    push_escaped(&mut out, s);
    proof {
        assert(out@ =~= xml_escaped(s@));
    }
    string_of(&out)
}

// ---------------------------------------------------------------------------
// Editing a document
// ---------------------------------------------------------------------------

/// The document a new sidecar starts from: the `xmp` and `dc` namespaces and
/// no properties.
pub open spec fn default_doc() -> DocView {
    DocView {
        namespaces: seq![("xmp"@, NS_XMP@), ("dc"@, NS_DC@)],
        props: Seq::empty(),
    }
}

/// Whether some declaration has prefix `prefix`.
pub open spec fn declares(ns: Seq<(Seq<char>, Seq<char>)>, prefix: Seq<char>) -> bool {
    exists|i: int| 0 <= i < ns.len() && #[trigger] ns[i].0 == prefix
}

/// `d` with `(prefix, uri)` declared unless the prefix is already declared.
pub open spec fn with_ns(d: DocView, prefix: Seq<char>, uri: Seq<char>) -> DocView {
    if declares(d.namespaces, prefix) {
        d
    } else {
        DocView { namespaces: d.namespaces.push((prefix, uri)), ..d }
    }
}

/// Whether property `p` is `ns:local`.
pub open spec fn is_prop(p: PropView, ns: Seq<char>, local: Seq<char>) -> bool {
    p.ns == ns && p.local == local
}

/// The test that keeps every property but `ns:local`.
pub open spec fn keeps(ns: Seq<char>, local: Seq<char>) -> spec_fn(PropView) -> bool {
    |p: PropView| !is_prop(p, ns, local)
}

/// `d` without its `ns:local` properties.
pub open spec fn without_prop(d: DocView, ns: Seq<char>, local: Seq<char>) -> DocView {
    DocView { props: d.props.filter(keeps(ns, local)), ..d }
}

/// `d` with `ns:local` replaced by `value` (appended last), or removed when
/// there is no value.
pub open spec fn with_prop(
    d: DocView,
    raw_name: Seq<char>,
    ns: Seq<char>,
    local: Seq<char>,
    value: Option<ValueView>,
) -> DocView {
    let r = without_prop(d, ns, local);
    match value {
        Some(v) => DocView {
            props: r.props.push(PropView { raw_name, ns, local, value: v }),
            ..r
        },
        None => r,
    }
}

fn pair_clone(p: &(String, String)) -> (r: (String, String))
    ensures
        r.0@ == p.0@ && r.1@ == p.1@,
{
    (p.0.clone(), p.1.clone())
}

pub fn strings_clone(v: &Vec<String>) -> (r: Vec<String>)
    ensures
        strings_view(r@) == strings_view(v@),
{
    let mut r: Vec<String> = Vec::new();
    let mut k: usize = 0;
    while k < v.len()
        invariant
            k <= v@.len(),
            r@.len() == k,
            strings_view(r@) == strings_view(v@).take(k as int),
        decreases v@.len() - k,
    {
        let c = v[k].clone();
        r.push(c);
        proof {
            assert(strings_view(r@)[k as int] == c@);
            assert(strings_view(r@) =~= strings_view(v@).take(k + 1));
        }
        k = k + 1;
    }
    proof {
        assert(strings_view(v@).take(v@.len() as int) =~= strings_view(v@));
    }
    r
}

impl XmpDoc {
    /// The document of a new sidecar.
    pub fn with_default_ns() -> (d: XmpDoc)
        ensures
            d@ == default_doc(),
    {
        let mut namespaces: Vec<(String, String)> = Vec::new();
        namespaces.push((String::from_str("xmp"), String::from_str(NS_XMP)));
        namespaces.push((String::from_str("dc"), String::from_str(NS_DC)));
        let d = XmpDoc { namespaces, props: Vec::new() };
        proof {
            assert(d@.namespaces =~= default_doc().namespaces);
            assert(d@.props =~= Seq::<PropView>::empty());
        }
        d
    }

    /// Declares `prefix` as `uri` unless the prefix is already declared.
    pub fn ensure_ns(&mut self, prefix: &str, uri: &str)
        ensures
            final(self)@ == with_ns(old(self)@, prefix@, uri@),
    {
        let ghost nv = self@.namespaces;
        let mut k: usize = 0;
        while k < self.namespaces.len()
            invariant
                nv == pairs_view(self.namespaces@),
                self@ == old(self)@,
                k <= self.namespaces@.len(),
                forall|i: int| 0 <= i < k ==> nv[i].0 != prefix@,
            decreases self.namespaces@.len() - k,
        {
            if str_eq(self.namespaces[k].0.as_str(), prefix) {
                proof {
                    assert(nv[k as int].0 == prefix@);
                    assert(declares(nv, prefix@));
                }
                return;
            }
            k = k + 1;
        }
        self.namespaces.push((String::from_str(prefix), String::from_str(uri)));
        proof {
            assert(pairs_view(self.namespaces@) =~= nv.push((prefix@, uri@)));
            assert(self@.props == old(self)@.props);
        }
    }

    /// Removes every `ns:local` property.
    pub fn remove(&mut self, ns: &str, local: &str)
        ensures
            final(self)@ == without_prop(old(self)@, ns@, local@),
    {
        let ghost pv = self@.props;
        let ghost pred = keeps(ns@, local@);
        let mut kept: Vec<XmpProp> = Vec::new();
        let mut rest: Vec<XmpProp> = Vec::new();
        std::mem::swap(&mut rest, &mut self.props);
        let mut k: usize = 0;
        let len = rest.len();
        while rest.len() > 0
            invariant
                k + rest@.len() == pv.len(),
                pred == keeps(ns@, local@),
                pv == old(self)@.props,
                len == pv.len(),
                props_view(rest@) == pv.skip(k as int),
                props_view(kept@) == pv.take(k as int).filter(pred),
                pairs_view(self.namespaces@) == old(self)@.namespaces,
            decreases rest@.len(),
        {
            let ghost before = rest@;
            let p = rest.remove(0);
            proof {
                assert(p == before[0]);
                assert(props_view(before)[0] == prop_view(p));
                assert(pv.skip(k as int)[0] == pv[k as int]);
                assert(props_view(rest@) =~= props_view(before).skip(1));
                assert(pv.skip(k as int).skip(1) =~= pv.skip(k + 1));
                assert(pv.take(k + 1).drop_last() =~= pv.take(k as int));
                reveal(Seq::filter);
                let tk = pv.take(k + 1);
                assert(tk.last() == pv[k as int]);
                assert(tk.filter(pred) == if pred(tk.last()) {
                    tk.drop_last().filter(pred).push(tk.last())
                } else {
                    tk.drop_last().filter(pred)
                });
            }
            let drop_it = str_eq(p.ns.as_str(), ns) && str_eq(p.local.as_str(), local);
            proof {
                assert(prop_view(p).ns == p.ns@);
                assert(prop_view(p).local == p.local@);
                assert(drop_it == (p.ns@ == ns@ && p.local@ == local@));
                assert(pred(prop_view(p)) == !is_prop(prop_view(p), ns@, local@));
                assert(pred(prop_view(p)) == !drop_it);
            }
            if !drop_it {
                let ghost kb = kept@;
                kept.push(p);
                proof {
                    assert(props_view(kept@) =~= props_view(kb).push(prop_view(p)));
                }
            }
            k = k + 1;
        }
        proof {
            assert(pv.take(pv.len() as int) =~= pv);
        }
        self.props = kept;
    }

    /// Sets `ns:local` to `value` (as the last property), or removes it when
    /// there is no value.
    pub fn set(&mut self, raw_name: &str, ns: &str, local: &str, value: Option<PropValue>)
        ensures
            final(self)@ == with_prop(
                old(self)@,
                raw_name@,
                ns@,
                local@,
                match value {
                    Some(v) => Some(value_view(v)),
                    None => None,
                },
            ),
    {
        self.remove(ns, local);
        match value {
            Some(v) => {
                let ghost before = self@;
                let p = XmpProp {
                    raw_name: String::from_str(raw_name),
                    ns: String::from_str(ns),
                    local: String::from_str(local),
                    value: v,
                };
                self.props.push(p);
                proof {
                    assert(self@.props =~= before.props.push(prop_view(p)));
                }
            },
            None => {},
        }
    }
}

// ---------------------------------------------------------------------------
// Serialising
// ---------------------------------------------------------------------------

/// One `rdf:li` of an `rdf:Alt`.
pub open spec fn alt_item_text(item: (Seq<char>, Seq<char>)) -> Seq<char> {
    "    <rdf:li xml:lang=\""@ + xml_escaped(item.0) + "\">"@ + xml_escaped(item.1)
        + "</rdf:li>\n"@
}

/// The `rdf:li` lines of an `rdf:Alt`.
pub open spec fn alt_items_text(items: Seq<(Seq<char>, Seq<char>)>) -> Seq<char>
    decreases items.len(),
{
    if items.len() == 0 {
        Seq::empty()
    } else {
        alt_items_text(items.drop_last()) + alt_item_text(items.last())
    }
}

/// The `rdf:li` lines of an array.
pub open spec fn array_items_text(items: Seq<Seq<char>>) -> Seq<char>
    decreases items.len(),
{
    if items.len() == 0 {
        Seq::empty()
    } else {
        array_items_text(items.drop_last()) + "    <rdf:li>"@ + xml_escaped(items.last())
            + "</rdf:li>\n"@
    }
}

/// The element name of an array container.
pub open spec fn container_name(k: ArrayKind) -> Seq<char> {
    match k {
        ArrayKind::Bag => "rdf:Bag"@,
        ArrayKind::Sequence => "rdf:Seq"@,
    }
}

/// The lines a property is written as.
pub open spec fn prop_text(p: PropView) -> Seq<char> {
    match p.value {
        ValueView::Raw(s) => "   "@ + trim_spec(s) + "\n"@,
        ValueView::Simple(v) => "   <"@ + p.raw_name + ">"@ + xml_escaped(v) + "</"@ + p.raw_name
            + ">\n"@,
        ValueView::LangAlt(items) => "   <"@ + p.raw_name + "><rdf:Alt>\n"@ + alt_items_text(items)
            + "   </rdf:Alt></"@ + p.raw_name + ">\n"@,
        ValueView::Array(k, items) => "   <"@ + p.raw_name + "><"@ + container_name(k) + ">\n"@
            + array_items_text(items) + "   </"@ + container_name(k) + "></"@ + p.raw_name
            + ">\n"@,
    }
}

/// The namespace declarations of the `rdf:Description` (all but `rdf` and `x`).
pub open spec fn ns_decl_text(ns: Seq<(Seq<char>, Seq<char>)>) -> Seq<char>
    decreases ns.len(),
{
    if ns.len() == 0 {
        Seq::empty()
    } else {
        let (prefix, uri) = ns.last();
        ns_decl_text(ns.drop_last()) + if prefix == "rdf"@ || prefix == "x"@ {
            Seq::empty()
        } else {
            "\n    xmlns:"@ + prefix + "=\""@ + xml_escaped(uri) + "\""@
        }
    }
}

/// The properties, each written in turn.
pub open spec fn props_text(props: Seq<PropView>) -> Seq<char>
    decreases props.len(),
{
    if props.len() == 0 {
        Seq::empty()
    } else {
        props_text(props.drop_last()) + prop_text(props.last())
    }
}

/// The packet a document is written as.
pub open spec fn doc_text(d: DocView) -> Seq<char> {
    "<?xpacket begin=\"\" id=\"W5M0MpCehiHzreSzNTczkc9d\"?>\n<x:xmpmeta xmlns:x=\"adobe:ns:meta/\">\n <rdf:RDF xmlns:rdf=\""@
        + NS_RDF@ + "\">\n  <rdf:Description rdf:about=\"\""@ + ns_decl_text(d.namespaces)
        + ">\n"@ + props_text(d.props)
        + "  </rdf:Description>\n </rdf:RDF>\n</x:xmpmeta>\n<?xpacket end=\"w\"?>\n"@
}

/// Appends the `rdf:li` lines of an `rdf:Alt`.
fn push_alt_items(out: &mut Vec<char>, items: &Vec<(String, String)>)
    ensures
        final(out)@ == old(out)@ + alt_items_text(pairs_view(items@)),
{
    let ghost iv = pairs_view(items@);
    let mut k: usize = 0;
    while k < items.len()
        invariant
            iv == pairs_view(items@),
            k <= items@.len(),
            out@ == old(out)@ + alt_items_text(iv.take(k as int)),
        decreases items@.len() - k,
    {
        push_str(out, "    <rdf:li xml:lang=\"");
        push_escaped(out, items[k].0.as_str());
        push_str(out, "\">");
        push_escaped(out, items[k].1.as_str());
        push_str(out, "</rdf:li>\n");
        proof {
            assert(iv.take(k + 1).drop_last() =~= iv.take(k as int));
            assert(iv.take(k + 1).last() == iv[k as int]);
            assert(out@ =~= old(out)@ + alt_items_text(iv.take(k + 1)));
        }
        k = k + 1;
    }
    proof {
        assert(iv.take(items@.len() as int) =~= iv);
    }
}

/// Appends the `rdf:li` lines of an array.
fn push_array_items(out: &mut Vec<char>, items: &Vec<String>)
    ensures
        final(out)@ == old(out)@ + array_items_text(strings_view(items@)),
{
    let ghost iv = strings_view(items@);
    let mut k: usize = 0;
    while k < items.len()
        invariant
            iv == strings_view(items@),
            k <= items@.len(),
            out@ == old(out)@ + array_items_text(iv.take(k as int)),
        decreases items@.len() - k,
    {
        push_str(out, "    <rdf:li>");
        push_escaped(out, items[k].as_str());
        push_str(out, "</rdf:li>\n");
        proof {
            assert(iv.take(k + 1).drop_last() =~= iv.take(k as int));
            assert(iv.take(k + 1).last() == iv[k as int]);
            assert(out@ =~= old(out)@ + array_items_text(iv.take(k + 1)));
        }
        k = k + 1;
    }
    proof {
        assert(iv.take(items@.len() as int) =~= iv);
    }
}

/// Appends the lines of one property.
fn push_prop(out: &mut Vec<char>, p: &XmpProp)
    ensures
        final(out)@ == old(out)@ + prop_text(prop_view(*p)),
{
    let ghost start = out@;
    match &p.value {
        PropValue::Raw(s) => {
            push_str(out, "   ");
            let t = trim_chars(&chars_of(s.as_str()));
            push_chars(out, &t);
            push_str(out, "\n");
            proof {
                assert(out@ =~= start + prop_text(prop_view(*p)));
            }
        },
        PropValue::Simple(v) => {
            push_str(out, "   <");
            push_str(out, p.raw_name.as_str());
            push_str(out, ">");
            push_escaped(out, v.as_str());
            push_str(out, "</");
            push_str(out, p.raw_name.as_str());
            push_str(out, ">\n");
            proof {
                assert(out@ =~= start + prop_text(prop_view(*p)));
            }
        },
        PropValue::LangAlt(items) => {
            push_str(out, "   <");
            push_str(out, p.raw_name.as_str());
            push_str(out, "><rdf:Alt>\n");
            push_alt_items(out, items);
            push_str(out, "   </rdf:Alt></");
            push_str(out, p.raw_name.as_str());
            push_str(out, ">\n");
            proof {
                assert(out@ =~= start + prop_text(prop_view(*p)));
            }
        },
        PropValue::Array(kind, items) => {
            let container = match kind {
                ArrayKind::Bag => "rdf:Bag",
                ArrayKind::Sequence => "rdf:Seq",
            };
            push_str(out, "   <");
            push_str(out, p.raw_name.as_str());
            push_str(out, "><");
            push_str(out, container);
            push_str(out, ">\n");
            push_array_items(out, items);
            push_str(out, "   </");
            push_str(out, container);
            push_str(out, "></");
            push_str(out, p.raw_name.as_str());
            push_str(out, ">\n");
            proof {
                assert(container@ == container_name(*kind));
                assert(out@ =~= start + prop_text(prop_view(*p)));
            }
        },
    }
}

/// The lines of one property.
pub fn serialize_prop(p: &XmpProp) -> (r: String)
    ensures
        r@ == prop_text(prop_view(*p)),
{
    let mut out: Vec<char> = Vec::new();
    push_prop(&mut out, p);
    proof {
        assert(out@ =~= prop_text(prop_view(*p)));
    }
    string_of(&out)
}

impl XmpDoc {
    /// Writes the document as an XMP packet.
    pub fn serialize(&self) -> (r: String)
        ensures
            r@ == doc_text(self@),
    {
        let mut out: Vec<char> = Vec::new();
        push_str(
            &mut out,
            "<?xpacket begin=\"\" id=\"W5M0MpCehiHzreSzNTczkc9d\"?>\n<x:xmpmeta xmlns:x=\"adobe:ns:meta/\">\n <rdf:RDF xmlns:rdf=\"",
        );
        push_str(&mut out, NS_RDF);
        push_str(&mut out, "\">\n  <rdf:Description rdf:about=\"\"");
        let ghost start = out@;
        let ghost nv = self@.namespaces;
        let mut k: usize = 0;
        while k < self.namespaces.len()
            invariant
                nv == pairs_view(self.namespaces@),
                k <= self.namespaces@.len(),
                out@ == start + ns_decl_text(nv.take(k as int)),
            decreases self.namespaces@.len() - k,
        {
            let prefix = self.namespaces[k].0.as_str();
            proof {
                assert(nv.take(k + 1).drop_last() =~= nv.take(k as int));
                assert(nv.take(k + 1).last() == nv[k as int]);
            }
            if !(str_eq(prefix, "rdf") || str_eq(prefix, "x")) {
                push_str(&mut out, "\n    xmlns:");
                push_str(&mut out, prefix);
                push_str(&mut out, "=\"");
                push_escaped(&mut out, self.namespaces[k].1.as_str());
                push_str(&mut out, "\"");
            }
            proof {
                assert(out@ =~= start + ns_decl_text(nv.take(k + 1)));
            }
            k = k + 1;
        }
        proof {
            assert(nv.take(self.namespaces@.len() as int) =~= nv);
        }
        push_str(&mut out, ">\n");
        let ghost mid = out@;
        let ghost pv = self@.props;
        let mut j: usize = 0;
        while j < self.props.len()
            invariant
                pv == props_view(self.props@),
                j <= self.props@.len(),
                out@ == mid + props_text(pv.take(j as int)),
            decreases self.props@.len() - j,
        {
            push_prop(&mut out, &self.props[j]);
            proof {
                assert(pv.take(j + 1).drop_last() =~= pv.take(j as int));
                assert(pv.take(j + 1).last() == pv[j as int]);
                assert(out@ =~= mid + props_text(pv.take(j + 1)));
            }
            j = j + 1;
        }
        proof {
            assert(pv.take(self.props@.len() as int) =~= pv);
        }
        push_str(&mut out, "  </rdf:Description>\n </rdf:RDF>\n</x:xmpmeta>\n<?xpacket end=\"w\"?>\n");
        proof {
            assert(out@ =~= doc_text(self@));
        }
        string_of(&out)
    }
}


// ---------------------------------------------------------------------------
// Merging the managed fields
// ---------------------------------------------------------------------------

/// The value of an optional string.
pub open spec fn opt_view(o: Option<String>) -> Option<Seq<char>> {
    match o {
        Some(s) => Some(s@),
        None => None,
    }
}

/// A language alternative holding `v` as the `x-default` text; none when `v`
/// is absent or empty.
pub open spec fn lang_alt_value(v: Option<Seq<char>>) -> Option<ValueView> {
    match v {
        Some(s) => if s.len() > 0 {
            Some(ValueView::LangAlt(seq![("x-default"@, s)]))
        } else {
            None
        },
        None => None,
    }
}

/// An array of `kind` holding `items`; none when there are no items.
pub open spec fn array_value(kind: ArrayKind, items: Seq<Seq<char>>) -> Option<ValueView> {
    if items.len() == 0 {
        None
    } else {
        Some(ValueView::Array(kind, items))
    }
}

/// The label as a simple value, or nothing when it is absent or empty.
pub open spec fn label_value(label: Option<String>) -> Option<ValueView> {
    match label {
        Some(l) => if l@.len() > 0 {
            Some(ValueView::Simple(l@))
        } else {
            None
        },
        None => None,
    }
}

/// `d` with IsomFolio's fields written over it: the `xmp` and `dc` namespaces
/// declared, then rating, label, title, description, rights, creator and
/// subject each replaced (or removed when empty), in that order.
pub open spec fn merged_doc(d: DocView, meta: XmpMetadata, subjects: Seq<Seq<char>>) -> DocView {
    let d1 = with_ns(with_ns(d, "xmp"@, NS_XMP@), "dc"@, NS_DC@);
    let d2 = with_prop(
        d1,
        "xmp:Rating"@,
        NS_XMP@,
        "Rating"@,
        match meta.core.rating {
            Some(r) => Some(ValueView::Simple(int_text(r as int))),
            None => None,
        },
    );
    let d3 = with_prop(
        d2,
        "xmp:Label"@,
        NS_XMP@,
        "Label"@,
        label_value(meta.core.label),
    );
    let d4 = with_prop(d3, "dc:title"@, NS_DC@, "title"@, lang_alt_value(opt_view(meta.dublin_core.title)));
    let d5 = with_prop(
        d4,
        "dc:description"@,
        NS_DC@,
        "description"@,
        lang_alt_value(opt_view(meta.dublin_core.description)),
    );
    let d6 = with_prop(d5, "dc:rights"@, NS_DC@, "rights"@, lang_alt_value(opt_view(meta.dublin_core.rights)));
    let d7 = with_prop(
        d6,
        "dc:creator"@,
        NS_DC@,
        "creator"@,
        array_value(ArrayKind::Sequence, strings_view(meta.dublin_core.creator@)),
    );
    with_prop(d7, "dc:subject"@, NS_DC@, "subject"@, array_value(ArrayKind::Bag, subjects))
}

fn lang_alt(v: &Option<String>) -> (r: Option<PropValue>)
    ensures
        match r {
            Some(pv) => lang_alt_value(opt_view(*v)) == Some(value_view(pv)),
            None => lang_alt_value(opt_view(*v)) is None,
        },
{
    match v {
        Some(s) => if s.unicode_len() > 0 {
            let mut items: Vec<(String, String)> = Vec::new();
            items.push((String::from_str("x-default"), s.clone()));
            let r = PropValue::LangAlt(items);
            proof {
                assert(pairs_view(items@) =~= seq![("x-default"@, s@)]);
            }
            Some(r)
        } else {
            None
        },
        None => None,
    }
}

/// Writes IsomFolio's fields over the document `doc` and serialises it.
pub fn merge_doc(doc: XmpDoc, meta: &XmpMetadata, subjects: &[String]) -> (r: String)
    ensures
        r@ == doc_text(merged_doc(doc@, *meta, strings_view(subjects@))),
{
    let mut doc = doc;
    doc.ensure_ns("xmp", NS_XMP);
    doc.ensure_ns("dc", NS_DC);
    let rating = match meta.core.rating {
        Some(r) => Some(PropValue::Simple(string_of(&i32_to_text(r)))),
        None => None,
    };
    doc.set("xmp:Rating", NS_XMP, "Rating", rating);
    let label = match &meta.core.label {
        Some(l) => if l.unicode_len() > 0 {
            Some(PropValue::Simple(l.clone()))
        } else {
            None
        },
        None => None,
    };
    doc.set("xmp:Label", NS_XMP, "Label", label);
    doc.set("dc:title", NS_DC, "title", lang_alt(&meta.dublin_core.title));
    doc.set("dc:description", NS_DC, "description", lang_alt(&meta.dublin_core.description));
    doc.set("dc:rights", NS_DC, "rights", lang_alt(&meta.dublin_core.rights));
    let creator = if meta.dublin_core.creator.len() == 0 {
        None
    } else {
        Some(PropValue::Array(ArrayKind::Sequence, strings_clone(&meta.dublin_core.creator)))
    };
    doc.set("dc:creator", NS_DC, "creator", creator);
    let subject = if subjects.len() == 0 {
        None
    } else {
        let mut v: Vec<String> = Vec::new();
        let mut k: usize = 0;
        while k < subjects.len()
            invariant
                k <= subjects@.len(),
                v@.len() == k,
                strings_view(v@) == strings_view(subjects@).take(k as int),
            decreases subjects@.len() - k,
        {
            let c = subjects[k].clone();
            v.push(c);
            proof {
                assert(strings_view(v@)[k as int] == c@);
                assert(strings_view(v@) =~= strings_view(subjects@).take(k + 1));
            }
            k = k + 1;
        }
        proof {
            assert(strings_view(subjects@).take(subjects@.len() as int) =~= strings_view(subjects@));
        }
        Some(PropValue::Array(ArrayKind::Bag, v))
    };
    doc.set("dc:subject", NS_DC, "subject", subject);
    doc.serialize()
}

/// Writes a new sidecar holding IsomFolio's fields.
pub fn serialize_sidecar(meta: &XmpMetadata, subjects: &[String]) -> (r: String)
    ensures
        r@ == doc_text(merged_doc(default_doc(), *meta, strings_view(subjects@))),
{
    merge_doc(XmpDoc::with_default_ns(), meta, subjects)
}


/// Escaped text holds no `<`, `>` or `"`, and is at least as long as the
/// text.
pub proof fn lemma_escaped_has_no_markup(s: Seq<char>)
    ensures
        forall|i: int|
            0 <= i < xml_escaped(s).len() ==> #[trigger] xml_escaped(s)[i] != '<' && xml_escaped(
                s,
            )[i] != '>' && xml_escaped(s)[i] != '"',
        xml_escaped(s).len() >= s.len(),
    decreases s.len(),
{
    reveal_strlit("&amp;");
    reveal_strlit("&lt;");
    reveal_strlit("&gt;");
    reveal_strlit("&quot;");
    if s.len() > 0 {
        lemma_escaped_has_no_markup(s.drop_last());
        let a = xml_escaped(s.drop_last());
        let b = escaped_char(s.last());
        assert forall|i: int| 0 <= i < (a + b).len() implies #[trigger] (a + b)[i] != '<' && (a
            + b)[i] != '>' && (a + b)[i] != '"' by {
            if i < a.len() {
                assert((a + b)[i] == a[i]);
            } else {
                assert((a + b)[i] == b[i - a.len()]);
            }
        }
    }
}


/// Whether a property is one IsomFolio writes.
pub open spec fn is_managed(p: PropView) -> bool {
    is_prop(p, NS_XMP@, "Rating"@) || is_prop(p, NS_XMP@, "Label"@) || is_prop(p, NS_DC@, "title"@)
        || is_prop(p, NS_DC@, "description"@) || is_prop(p, NS_DC@, "rights"@) || is_prop(
        p,
        NS_DC@,
        "creator"@,
    ) || is_prop(p, NS_DC@, "subject"@)
}

/// The test that keeps the properties IsomFolio does not write.
pub open spec fn unmanaged() -> spec_fn(PropView) -> bool {
    |p: PropView| !is_managed(p)
}

proof fn lemma_filter_push<A>(s: Seq<A>, x: A, f: spec_fn(A) -> bool)
    ensures
        s.push(x).filter(f) == if f(x) {
            s.filter(f).push(x)
        } else {
            s.filter(f)
        },
{
    reveal(Seq::filter);
    assert(s.push(x).drop_last() =~= s);
}

proof fn lemma_filter_twice<A>(s: Seq<A>, f: spec_fn(A) -> bool, g: spec_fn(A) -> bool)
    requires
        forall|x: A| #[trigger] f(x) ==> g(x),
    ensures
        s.filter(g).filter(f) == s.filter(f),
    decreases s.len(),
{
    reveal(Seq::filter);
    if s.len() > 0 {
        lemma_filter_twice(s.drop_last(), f, g);
        lemma_filter_push(s.drop_last().filter(g), s.last(), f);
    }
}

proof fn lemma_with_prop_keeps_unmanaged(
    d: DocView,
    raw: Seq<char>,
    ns: Seq<char>,
    local: Seq<char>,
    v: Option<ValueView>,
)
    requires
        is_managed(PropView { raw_name: raw, ns, local, value: ValueView::Simple(Seq::empty()) }),
    ensures
        with_prop(d, raw, ns, local, v).props.filter(unmanaged()) == d.props.filter(unmanaged()),
        with_prop(d, raw, ns, local, v).namespaces == d.namespaces,
{
    let f = unmanaged();
    let g = keeps(ns, local);
    assert forall|x: PropView| #[trigger] f(x) implies g(x) by {}
    lemma_filter_twice(d.props, f, g);
    match v {
        Some(val) => {
            let p = PropView { raw_name: raw, ns, local, value: val };
            lemma_filter_push(d.props.filter(g), p, f);
        },
        None => {},
    }
}

/// Merging keeps every property IsomFolio does not manage, in order and
/// unchanged, and every namespace declaration already there.
pub proof fn lemma_merge_keeps_unmanaged(d: DocView, meta: XmpMetadata, subjects: Seq<Seq<char>>)
    ensures
        merged_doc(d, meta, subjects).props.filter(unmanaged()) == d.props.filter(unmanaged()),
        merged_doc(d, meta, subjects).namespaces.len() >= d.namespaces.len(),
        merged_doc(d, meta, subjects).namespaces.take(d.namespaces.len() as int) == d.namespaces,
{
    reveal_strlit("Rating");
    reveal_strlit("Label");
    reveal_strlit("title");
    reveal_strlit("description");
    reveal_strlit("rights");
    reveal_strlit("creator");
    reveal_strlit("subject");
    let d1 = with_ns(with_ns(d, "xmp"@, NS_XMP@), "dc"@, NS_DC@);
    assert(d1.props == d.props);
    assert(d1.namespaces.take(d.namespaces.len() as int) =~= d.namespaces);
    let rating = match meta.core.rating {
        Some(r) => Some(ValueView::Simple(int_text(r as int))),
        None => None,
    };
    let label = label_value(meta.core.label);
    lemma_with_prop_keeps_unmanaged(d1, "xmp:Rating"@, NS_XMP@, "Rating"@, rating);
    let d2 = with_prop(d1, "xmp:Rating"@, NS_XMP@, "Rating"@, rating);
    lemma_with_prop_keeps_unmanaged(d2, "xmp:Label"@, NS_XMP@, "Label"@, label);
    let d3 = with_prop(d2, "xmp:Label"@, NS_XMP@, "Label"@, label);
    let t = lang_alt_value(opt_view(meta.dublin_core.title));
    lemma_with_prop_keeps_unmanaged(d3, "dc:title"@, NS_DC@, "title"@, t);
    let d4 = with_prop(d3, "dc:title"@, NS_DC@, "title"@, t);
    let de = lang_alt_value(opt_view(meta.dublin_core.description));
    lemma_with_prop_keeps_unmanaged(d4, "dc:description"@, NS_DC@, "description"@, de);
    let d5 = with_prop(d4, "dc:description"@, NS_DC@, "description"@, de);
    let ri = lang_alt_value(opt_view(meta.dublin_core.rights));
    lemma_with_prop_keeps_unmanaged(d5, "dc:rights"@, NS_DC@, "rights"@, ri);
    let d6 = with_prop(d5, "dc:rights"@, NS_DC@, "rights"@, ri);
    let cr = array_value(ArrayKind::Sequence, strings_view(meta.dublin_core.creator@));
    lemma_with_prop_keeps_unmanaged(d6, "dc:creator"@, NS_DC@, "creator"@, cr);
    let d7 = with_prop(d6, "dc:creator"@, NS_DC@, "creator"@, cr);
    let su = array_value(ArrayKind::Bag, subjects);
    lemma_with_prop_keeps_unmanaged(d7, "dc:subject"@, NS_DC@, "subject"@, su);
}


/// The test that keeps the `ns:local` properties.
pub open spec fn selects(ns: Seq<char>, local: Seq<char>) -> spec_fn(PropView) -> bool {
    |p: PropView| is_prop(p, ns, local)
}

/// The `ns:local` properties a value gives: one property holding it, or none.
pub open spec fn field_props(raw: Seq<char>, ns: Seq<char>, local: Seq<char>, v: Option<ValueView>) -> Seq<PropView> {
    match v {
        Some(val) => seq![PropView { raw_name: raw, ns, local, value: val }],
        None => Seq::empty(),
    }
}

proof fn lemma_filter_none<A>(s: Seq<A>, f: spec_fn(A) -> bool, g: spec_fn(A) -> bool)
    requires
        forall|x: A| #[trigger] f(x) ==> !g(x),
    ensures
        s.filter(g).filter(f) == Seq::<A>::empty(),
    decreases s.len(),
{
    reveal(Seq::filter);
    if s.len() > 0 {
        lemma_filter_none(s.drop_last(), f, g);
        lemma_filter_push(s.drop_last().filter(g), s.last(), f);
    }
}

/// Setting `ns:local` leaves exactly the properties its value gives.
proof fn lemma_with_prop_sets(d: DocView, raw: Seq<char>, ns: Seq<char>, local: Seq<char>, v: Option<ValueView>)
    ensures
        with_prop(d, raw, ns, local, v).props.filter(selects(ns, local)) == field_props(raw, ns, local, v),
{
    let f = selects(ns, local);
    let g = keeps(ns, local);
    assert forall|x: PropView| #[trigger] f(x) implies !g(x) by {}
    lemma_filter_none(d.props, f, g);
    match v {
        Some(val) => {
            let p = PropView { raw_name: raw, ns, local, value: val };
            lemma_filter_push(d.props.filter(g), p, f);
            assert(Seq::<PropView>::empty().push(p) =~= seq![p]);
        },
        None => {},
    }
}

/// Setting another property leaves the `ns:local` properties as they were.
proof fn lemma_with_prop_other(
    d: DocView,
    raw: Seq<char>,
    ns: Seq<char>,
    local: Seq<char>,
    v: Option<ValueView>,
    ns2: Seq<char>,
    local2: Seq<char>,
)
    requires
        ns != ns2 || local != local2,
    ensures
        with_prop(d, raw, ns, local, v).props.filter(selects(ns2, local2)) == d.props.filter(
            selects(ns2, local2),
        ),
{
    let f = selects(ns2, local2);
    let g = keeps(ns, local);
    assert forall|x: PropView| #[trigger] f(x) implies g(x) by {}
    lemma_filter_twice(d.props, f, g);
    match v {
        Some(val) => {
            let p = PropView { raw_name: raw, ns, local, value: val };
            lemma_filter_push(d.props.filter(g), p, f);
        },
        None => {},
    }
}

/// After a merge, each managed field is written exactly as the catalog has
/// it: the rating (as decimal text) and label as simple values, title,
/// description and rights as an `x-default` language alternative, creator as
/// an ordered array and subjects as a bag; an absent or empty field leaves no
/// property at all.
pub proof fn lemma_merge_writes_catalog(d: DocView, meta: XmpMetadata, subjects: Seq<Seq<char>>)
    ensures
        ({
            let m = merged_doc(d, meta, subjects);
            &&& m.props.filter(selects(NS_XMP@, "Rating"@)) == field_props(
                "xmp:Rating"@,
                NS_XMP@,
                "Rating"@,
                match meta.core.rating {
                    Some(r) => Some(ValueView::Simple(int_text(r as int))),
                    None => None,
                },
            )
            &&& m.props.filter(selects(NS_XMP@, "Label"@)) == field_props(
                "xmp:Label"@,
                NS_XMP@,
                "Label"@,
                label_value(meta.core.label),
            )
            &&& m.props.filter(selects(NS_DC@, "title"@)) == field_props(
                "dc:title"@,
                NS_DC@,
                "title"@,
                lang_alt_value(opt_view(meta.dublin_core.title)),
            )
            &&& m.props.filter(selects(NS_DC@, "description"@)) == field_props(
                "dc:description"@,
                NS_DC@,
                "description"@,
                lang_alt_value(opt_view(meta.dublin_core.description)),
            )
            &&& m.props.filter(selects(NS_DC@, "rights"@)) == field_props(
                "dc:rights"@,
                NS_DC@,
                "rights"@,
                lang_alt_value(opt_view(meta.dublin_core.rights)),
            )
            &&& m.props.filter(selects(NS_DC@, "creator"@)) == field_props(
                "dc:creator"@,
                NS_DC@,
                "creator"@,
                array_value(ArrayKind::Sequence, strings_view(meta.dublin_core.creator@)),
            )
            &&& m.props.filter(selects(NS_DC@, "subject"@)) == field_props(
                "dc:subject"@,
                NS_DC@,
                "subject"@,
                array_value(ArrayKind::Bag, subjects),
            )
        }),
{
    reveal_strlit("Rating");
    reveal_strlit("Label");
    reveal_strlit("title");
    reveal_strlit("description");
    reveal_strlit("rights");
    reveal_strlit("creator");
    reveal_strlit("subject");
    reveal_strlit("http://ns.adobe.com/xap/1.0/");
    reveal_strlit("http://purl.org/dc/elements/1.1/");
    let d1 = with_ns(with_ns(d, "xmp"@, NS_XMP@), "dc"@, NS_DC@);
    let rating = match meta.core.rating {
        Some(r) => Some(ValueView::Simple(int_text(r as int))),
        None => None,
    };
    let label = label_value(meta.core.label);
    let t = lang_alt_value(opt_view(meta.dublin_core.title));
    let de = lang_alt_value(opt_view(meta.dublin_core.description));
    let ri = lang_alt_value(opt_view(meta.dublin_core.rights));
    let cr = array_value(ArrayKind::Sequence, strings_view(meta.dublin_core.creator@));
    let su = array_value(ArrayKind::Bag, subjects);
    assert("Label"@.len() == 5);
    assert("Rating"@.len() == 6);
    assert("title"@.len() == 5);
    assert("description"@.len() == 11);
    assert("rights"@.len() == 6);
    assert("creator"@.len() == 7);
    assert("subject"@.len() == 7);
    assert("title"@[0] == 't' && "subject"@[0] == 's' && "creator"@[0] == 'c');
    assert(NS_XMP@.len() == 28);
    assert(NS_DC@.len() == 32);
    assert(NS_XMP@ != NS_DC@);
    let d2 = with_prop(d1, "xmp:Rating"@, NS_XMP@, "Rating"@, rating);
    let d3 = with_prop(d2, "xmp:Label"@, NS_XMP@, "Label"@, label);
    let d4 = with_prop(d3, "dc:title"@, NS_DC@, "title"@, t);
    let d5 = with_prop(d4, "dc:description"@, NS_DC@, "description"@, de);
    let d6 = with_prop(d5, "dc:rights"@, NS_DC@, "rights"@, ri);
    let d7 = with_prop(d6, "dc:creator"@, NS_DC@, "creator"@, cr);
    let d8 = with_prop(d7, "dc:subject"@, NS_DC@, "subject"@, su);
    lemma_with_prop_sets(d1, "xmp:Rating"@, NS_XMP@, "Rating"@, rating);
    lemma_with_prop_other(d2, "xmp:Label"@, NS_XMP@, "Label"@, label, NS_XMP@, "Rating"@);
    lemma_with_prop_other(d3, "dc:title"@, NS_DC@, "title"@, t, NS_XMP@, "Rating"@);
    lemma_with_prop_other(d4, "dc:description"@, NS_DC@, "description"@, de, NS_XMP@, "Rating"@);
    lemma_with_prop_other(d5, "dc:rights"@, NS_DC@, "rights"@, ri, NS_XMP@, "Rating"@);
    lemma_with_prop_other(d6, "dc:creator"@, NS_DC@, "creator"@, cr, NS_XMP@, "Rating"@);
    lemma_with_prop_other(d7, "dc:subject"@, NS_DC@, "subject"@, su, NS_XMP@, "Rating"@);
    lemma_with_prop_sets(d2, "xmp:Label"@, NS_XMP@, "Label"@, label);
    lemma_with_prop_other(d3, "dc:title"@, NS_DC@, "title"@, t, NS_XMP@, "Label"@);
    lemma_with_prop_other(d4, "dc:description"@, NS_DC@, "description"@, de, NS_XMP@, "Label"@);
    lemma_with_prop_other(d5, "dc:rights"@, NS_DC@, "rights"@, ri, NS_XMP@, "Label"@);
    lemma_with_prop_other(d6, "dc:creator"@, NS_DC@, "creator"@, cr, NS_XMP@, "Label"@);
    lemma_with_prop_other(d7, "dc:subject"@, NS_DC@, "subject"@, su, NS_XMP@, "Label"@);
    lemma_with_prop_sets(d3, "dc:title"@, NS_DC@, "title"@, t);
    lemma_with_prop_other(d4, "dc:description"@, NS_DC@, "description"@, de, NS_DC@, "title"@);
    lemma_with_prop_other(d5, "dc:rights"@, NS_DC@, "rights"@, ri, NS_DC@, "title"@);
    lemma_with_prop_other(d6, "dc:creator"@, NS_DC@, "creator"@, cr, NS_DC@, "title"@);
    lemma_with_prop_other(d7, "dc:subject"@, NS_DC@, "subject"@, su, NS_DC@, "title"@);
    lemma_with_prop_sets(d4, "dc:description"@, NS_DC@, "description"@, de);
    lemma_with_prop_other(d5, "dc:rights"@, NS_DC@, "rights"@, ri, NS_DC@, "description"@);
    lemma_with_prop_other(d6, "dc:creator"@, NS_DC@, "creator"@, cr, NS_DC@, "description"@);
    lemma_with_prop_other(d7, "dc:subject"@, NS_DC@, "subject"@, su, NS_DC@, "description"@);
    lemma_with_prop_sets(d5, "dc:rights"@, NS_DC@, "rights"@, ri);
    lemma_with_prop_other(d6, "dc:creator"@, NS_DC@, "creator"@, cr, NS_DC@, "rights"@);
    lemma_with_prop_other(d7, "dc:subject"@, NS_DC@, "subject"@, su, NS_DC@, "rights"@);
    lemma_with_prop_sets(d6, "dc:creator"@, NS_DC@, "creator"@, cr);
    lemma_with_prop_other(d7, "dc:subject"@, NS_DC@, "subject"@, su, NS_DC@, "creator"@);
    lemma_with_prop_sets(d7, "dc:subject"@, NS_DC@, "subject"@, su);
    assert(d8 == merged_doc(d, meta, subjects));
}


/// A merge of a catalog entry whose managed fields are all absent or empty
/// leaves none of those properties in the document, whatever it held, and
/// keeps every other property.
pub proof fn lemma_merge_clears_empty_fields(d: DocView, meta: XmpMetadata, subjects: Seq<Seq<char>>)
    requires
        meta.core.rating is None,
        meta.core.label matches Some(l) ==> l@.len() == 0,
        meta.dublin_core.title matches Some(t) ==> t@.len() == 0,
        meta.dublin_core.description matches Some(t) ==> t@.len() == 0,
        meta.dublin_core.rights matches Some(t) ==> t@.len() == 0,
        meta.dublin_core.creator@.len() == 0,
        subjects.len() == 0,
    ensures
        ({
            let m = merged_doc(d, meta, subjects);
            &&& m.props.filter(selects(NS_XMP@, "Rating"@)).len() == 0
            &&& m.props.filter(selects(NS_XMP@, "Label"@)).len() == 0
            &&& m.props.filter(selects(NS_DC@, "title"@)).len() == 0
            &&& m.props.filter(selects(NS_DC@, "description"@)).len() == 0
            &&& m.props.filter(selects(NS_DC@, "rights"@)).len() == 0
            &&& m.props.filter(selects(NS_DC@, "creator"@)).len() == 0
            &&& m.props.filter(selects(NS_DC@, "subject"@)).len() == 0
            &&& m.props.filter(unmanaged()) == d.props.filter(unmanaged())
        }),
{
    lemma_merge_writes_catalog(d, meta, subjects);
    lemma_merge_keeps_unmanaged(d, meta, subjects);
    assert(strings_view(meta.dublin_core.creator@).len() == 0);
}

} // verus!
