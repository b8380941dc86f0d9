use isomfolio_core::xml::decode_entities;
use isomfolio_core::xmp::{DublinCore, PropValue, XmpCore, XmpMetadata, NS_DC, NS_XMP};
use isomfolio_core::xmp_doc::{merge_sidecar, parse_embedded_from_bytes, parse_xmp_doc, try_parse_xmp_doc, try_merge_sidecar};
use isomfolio_core::xmp::serialize_sidecar;
use isomfolio_core::xmp_read::parse_xmp_xml;

#[test]
fn serialize_sidecar_round_trips_through_parser() {
    let meta = XmpMetadata {
        core: XmpCore { rating: Some(4), label: Some("Red".into()), ..Default::default() },
        dublin_core: DublinCore {
            title: Some("Harbour at dawn".into()),
            description: Some("Fishing boats leaving port".into()),
            creator: vec!["Jane Doe".into()],
            subject: vec![],
            rights: Some("(c) 2024 Jane Doe".into()),
        },
    };
    let xml = serialize_sidecar(&meta, &["nature".to_string(), "travel".to_string()]);
    let parsed = parse_xmp_xml(&xml);
    assert_eq!(parsed.core.rating, Some(4));
    assert_eq!(parsed.core.label.as_deref(), Some("Red"));
    assert_eq!(parsed.dublin_core.title.as_deref(), Some("Harbour at dawn"));
    assert_eq!(parsed.dublin_core.description.as_deref(), Some("Fishing boats leaving port"));
    assert_eq!(parsed.dublin_core.creator, vec!["Jane Doe".to_string()]);
    assert_eq!(parsed.dublin_core.subject, vec!["nature".to_string(), "travel".to_string()]);
    assert_eq!(parsed.dublin_core.rights.as_deref(), Some("(c) 2024 Jane Doe"));
}

#[test]
fn merge_preserves_unmanaged_fields_and_drops_emptied() {
    let existing = r#"<?xpacket begin=""?>
<x:xmpmeta xmlns:x="adobe:ns:meta/">
 <rdf:RDF xmlns:rdf="http://www.w3.org/1999/02/22-rdf-syntax-ns#">
  <rdf:Description rdf:about=""
    xmlns:xmp="http://ns.adobe.com/xap/1.0/"
    xmlns:dc="http://purl.org/dc/elements/1.1/"
    xmlns:exif="http://ns.adobe.com/exif/1.0/"
    xmp:Rating="2">
   <exif:GPSLatitude>51,30.5N</exif:GPSLatitude>
   <dc:description><rdf:Alt><rdf:li xml:lang="x-default">old caption</rdf:li></rdf:Alt></dc:description>
  </rdf:Description>
 </rdf:RDF>
</x:xmpmeta>
<?xpacket end="w"?>"#;
    let meta = XmpMetadata {
        core: XmpCore { rating: Some(5), ..Default::default() },
        dublin_core: DublinCore { creator: vec!["Jane Doe".into()], ..Default::default() },
    };
    let merged = merge_sidecar(Some(existing), &meta, &["nature".to_string()]);
    assert!(merged.contains("exif:GPSLatitude"));
    assert!(merged.contains("51,30.5N"));
    assert!(merged.contains("xmlns:exif="));
    let parsed = parse_xmp_doc(&merged);
    let get = |local: &str| {
        parsed.props.iter().find(|p| p.ns == NS_DC && p.local == local || p.ns == NS_XMP && p.local == local)
    };
    assert!(matches!(get("Rating").map(|p| &p.value), Some(PropValue::Simple(s)) if s == "5"));
    assert!(get("description").is_none(), "emptied caption must not be written");
    assert!(get("creator").is_some());
    assert!(get("subject").is_some());
}

#[test]
fn parse_rating_and_label_as_attributes() {
    let xml = r#"<?xpacket begin=""?>
<x:xmpmeta xmlns:x="adobe:ns:meta/">
  <rdf:RDF xmlns:rdf="http://www.w3.org/1999/02/22-rdf-syntax-ns#">
    <rdf:Description xmlns:xmp="http://ns.adobe.com/xap/1.0/"
                     xmp:Rating="4" xmp:Label="Red"/>
  </rdf:RDF>
</x:xmpmeta>"#;
    let meta = parse_xmp_xml(xml);
    assert_eq!(meta.core.rating, Some(4));
    assert_eq!(meta.core.label.as_deref(), Some("Red"));
}

#[test]
fn parse_decodes_entities_in_attribute_values() {
    let xml = r#"<x:xmpmeta xmlns:x="adobe:ns:meta/">
  <rdf:RDF xmlns:rdf="http://www.w3.org/1999/02/22-rdf-syntax-ns#">
    <rdf:Description xmlns:xmp="http://ns.adobe.com/xap/1.0/"
                     xmp:Label="Sun &amp; Sea &lt;draft&gt;"/>
  </rdf:RDF>
</x:xmpmeta>"#;
    let meta = parse_xmp_xml(xml);
    assert_eq!(meta.core.label.as_deref(), Some("Sun & Sea <draft>"));
}

#[test]
fn merge_preserves_attribute_form_props_on_self_closing_description() {
    let existing = r#"<x:xmpmeta xmlns:x="adobe:ns:meta/">
  <rdf:RDF xmlns:rdf="http://www.w3.org/1999/02/22-rdf-syntax-ns#">
    <rdf:Description xmlns:photoshop="http://ns.adobe.com/photoshop/1.0/"
                     xmlns:xmp="http://ns.adobe.com/xap/1.0/"
                     photoshop:City="Paris" xmp:Rating="2"/>
  </rdf:RDF>
</x:xmpmeta>"#;
    let meta = XmpMetadata { core: XmpCore { rating: Some(5), ..Default::default() }, ..Default::default() };
    let merged = merge_sidecar(Some(existing), &meta, &[]);
    assert!(merged.contains("Paris"), "unmanaged attribute prop must survive");
    let parsed = parse_xmp_doc(&merged);
    let rating = parsed.props.iter().find(|p| p.local == "Rating").unwrap();
    assert!(matches!(&rating.value, PropValue::Simple(s) if s == "5"), "managed prop updated");
}

#[test]
fn parse_doc_decodes_entities_in_attribute_values() {
    let xml = r#"<x:xmpmeta xmlns:x="adobe:ns:meta/">
  <rdf:RDF xmlns:rdf="http://www.w3.org/1999/02/22-rdf-syntax-ns#">
    <rdf:Description xmlns:photoshop="http://ns.adobe.com/photoshop/1.0/"
                     photoshop:Headline="A &amp; B"/>
  </rdf:RDF>
</x:xmpmeta>"#;
    let doc = parse_xmp_doc(xml);
    let headline = doc.props.iter().find(|p| p.local == "Headline").unwrap();
    assert!(matches!(&headline.value, PropValue::Simple(s) if s == "A & B"));
}

#[test]
fn parse_dc_subject_bag() {
    let xml = r#"<x:xmpmeta xmlns:x="adobe:ns:meta/">
  <rdf:RDF xmlns:rdf="http://www.w3.org/1999/02/22-rdf-syntax-ns#"
           xmlns:dc="http://purl.org/dc/elements/1.1/">
    <rdf:Description>
      <dc:subject>
        <rdf:Bag>
          <rdf:li>nature</rdf:li>
          <rdf:li>travel</rdf:li>
        </rdf:Bag>
      </dc:subject>
    </rdf:Description>
  </rdf:RDF>
</x:xmpmeta>"#;
    let meta = parse_xmp_xml(xml);
    assert_eq!(meta.dublin_core.subject, vec!["nature", "travel"]);
}

#[test]
fn parse_dc_title_alt() {
    let xml = r#"<x:xmpmeta xmlns:x="adobe:ns:meta/">
  <rdf:RDF xmlns:rdf="http://www.w3.org/1999/02/22-rdf-syntax-ns#"
           xmlns:dc="http://purl.org/dc/elements/1.1/"
           xmlns:xml="http://www.w3.org/XML/1998/namespace">
    <rdf:Description>
      <dc:title>
        <rdf:Alt>
          <rdf:li xml:lang="x-default">My Photo</rdf:li>
        </rdf:Alt>
      </dc:title>
    </rdf:Description>
  </rdf:RDF>
</x:xmpmeta>"#;
    let meta = parse_xmp_xml(xml);
    assert_eq!(meta.dublin_core.title.as_deref(), Some("My Photo"));
}

#[test]
fn parse_dc_creator_seq() {
    let xml = r#"<x:xmpmeta xmlns:x="adobe:ns:meta/">
  <rdf:RDF xmlns:rdf="http://www.w3.org/1999/02/22-rdf-syntax-ns#"
           xmlns:dc="http://purl.org/dc/elements/1.1/">
    <rdf:Description>
      <dc:creator>
        <rdf:Seq>
          <rdf:li>Jane Doe</rdf:li>
        </rdf:Seq>
      </dc:creator>
    </rdf:Description>
  </rdf:RDF>
</x:xmpmeta>"#;
    let meta = parse_xmp_xml(xml);
    assert_eq!(meta.dublin_core.creator, vec!["Jane Doe"]);
}

#[test]
fn nested_unknown_structures_are_kept_verbatim() {
    let xml = r#"<x:xmpmeta xmlns:x="adobe:ns:meta/">
  <rdf:RDF xmlns:rdf="http://www.w3.org/1999/02/22-rdf-syntax-ns#">
    <rdf:Description xmlns:ex="http://example.com/ns/">
      <ex:Thing><ex:Part a="1">v</ex:Part></ex:Thing>
    </rdf:Description>
  </rdf:RDF>
</x:xmpmeta>"#;
    let doc = parse_xmp_doc(xml);
    assert_eq!(doc.props.len(), 1);
    assert!(matches!(&doc.props[0].value, PropValue::Raw(s) if s == "<ex:Thing><ex:Part a=\"1\">v</ex:Part></ex:Thing>"));
    // Namespaces come sorted by prefix.
    let prefixes: Vec<&str> = doc.namespaces.iter().map(|(p, _)| p.as_str()).collect();
    assert_eq!(prefixes, vec!["dc", "ex", "rdf", "x", "xml", "xmp"]);
}

#[test]
fn a_truncated_packet_is_reported_unreadable() {
    let xml = r#"<x:xmpmeta xmlns:x="adobe:ns:meta/"><rdf:RDF xmlns:rdf="http://www.w3.org/1999/02/22-rdf-syntax-ns#"><rdf:Description><dc:title>"#;
    assert!(try_parse_xmp_doc(xml).is_none());
    assert!(try_merge_sidecar(Some(xml), &XmpMetadata::default(), &[]).is_none());
    assert!(try_merge_sidecar(Some("   "), &XmpMetadata::default(), &[]).is_some());
}

#[test]
fn embedded_packets_are_found_in_image_bytes() {
    let mut data: Vec<u8> = vec![0xff, 0xd8, 0x00, 0x10];
    data.extend_from_slice(b"http://ns.adobe.com/xap/1.0/\0");
    data.extend_from_slice(br#"<x:xmpmeta xmlns:x="adobe:ns:meta/"><rdf:RDF xmlns:rdf="http://www.w3.org/1999/02/22-rdf-syntax-ns#"><rdf:Description xmlns:xmp="http://ns.adobe.com/xap/1.0/" xmp:Rating="3"/></rdf:RDF></x:xmpmeta>"#);
    data.extend_from_slice(&[0xff, 0xd9]);
    let meta = parse_embedded_from_bytes(&data).unwrap();
    assert_eq!(meta.core.rating, Some(3));
    // No namespace marker: nothing is read.
    assert!(parse_embedded_from_bytes(b"<x:xmpmeta></x:xmpmeta>").is_none());
    // A packet that sets nothing gives nothing.
    let empty = b"http://ns.adobe.com/xap/1.0/ <x:xmpmeta></x:xmpmeta>";
    assert!(parse_embedded_from_bytes(empty).is_none());
}

#[test]
fn decoding_leaves_text_without_references_alone() {
    assert_eq!(decode_entities("Jane Doe"), "Jane Doe");
    assert_eq!(decode_entities("a; b"), "a; b");
    assert_eq!(decode_entities("Tom &amp; Jerry"), "Tom & Jerry");
    assert_eq!(decode_entities("bad &nope; ref"), "bad &nope; ref");
}

#[test]
fn sidecar_round_trip_keeps_markup_characters() {
    let meta = XmpMetadata {
        core: XmpCore { rating: Some(2), label: Some("Blue & Green".into()), ..Default::default() },
        dublin_core: DublinCore {
            title: Some("Tom & Jerry <3".into()),
            description: Some("\"quoted\" > plain".into()),
            creator: vec!["A & B".into(), "C".into()],
            subject: vec![],
            rights: None,
        },
    };
    let xml = serialize_sidecar(&meta, &["x<y".to_string(), "fish & chips".to_string()]);
    let parsed = parse_xmp_xml(&xml);
    assert_eq!(parsed.core.rating, Some(2));
    assert_eq!(parsed.core.label.as_deref(), Some("Blue & Green"));
    assert_eq!(parsed.dublin_core.title.as_deref(), Some("Tom & Jerry <3"));
    assert_eq!(parsed.dublin_core.description.as_deref(), Some("\"quoted\" > plain"));
    assert_eq!(parsed.dublin_core.creator, vec!["A & B".to_string(), "C".to_string()]);
    assert_eq!(parsed.dublin_core.subject, vec!["x<y".to_string(), "fish & chips".to_string()]);
    assert_eq!(parsed.dublin_core.rights, None);
}

#[test]
fn empty_label_is_removed_not_written() {
    let existing = r#"<x:xmpmeta xmlns:x="adobe:ns:meta/">
 <rdf:RDF xmlns:rdf="http://www.w3.org/1999/02/22-rdf-syntax-ns#">
  <rdf:Description rdf:about=""
    xmlns:xmp="http://ns.adobe.com/xap/1.0/"
    xmp:Label="Red">
   <xmp:CreatorTool>Cam</xmp:CreatorTool>
  </rdf:Description>
 </rdf:RDF>
</x:xmpmeta>"#;
    let meta = XmpMetadata {
        core: XmpCore { label: Some(String::new()), ..Default::default() },
        ..Default::default()
    };
    let merged = merge_sidecar(Some(existing), &meta, &[]);
    assert!(!merged.contains("xmp:Label"));
    assert!(merged.contains("xmp:CreatorTool"));
    let fresh = serialize_sidecar(&meta, &[]);
    assert!(!fresh.contains("xmp:Label"));
    assert_eq!(parse_xmp_xml(&fresh).core.label, None);
}
