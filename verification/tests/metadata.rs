use isomfolio_core::apple::{apple_metadata_from_tags, parse_tag, parse_tags_bplist, tags_from_items, AppleTag};
use isomfolio_core::exif::{days_in_month, exif_datetime_to_unix, is_leap};
use isomfolio_core::xmp::{
    merge_doc, serialize_prop, serialize_sidecar, xml_escape, ArrayKind, DublinCore, PropValue,
    XmpCore, XmpDoc, XmpMetadata, XmpProp, NS_DC,
};

#[test]
fn serialize_sidecar_xml_escapes_specials() {
    let meta = XmpMetadata {
        core: XmpCore::default(),
        dublin_core: DublinCore { title: Some("A & B <c>".into()), ..Default::default() },
    };
    let xml = serialize_sidecar(&meta, &[]);
    assert!(xml.contains("A &amp; B &lt;c&gt;"));
}

#[test]
fn escape_replaces_the_four_specials() {
    assert_eq!(xml_escape("a&b<c>d\"e'f"), "a&amp;b&lt;c&gt;d&quot;e'f");
    assert_eq!(xml_escape("&amp;"), "&amp;amp;");
}

#[test]
fn sidecar_writes_managed_fields_and_drops_empty_ones() {
    let meta = XmpMetadata {
        core: XmpCore { rating: Some(-1), label: Some("Red".into()), ..Default::default() },
        dublin_core: DublinCore {
            title: Some(String::new()),
            creator: vec!["Jane Doe".into()],
            ..Default::default()
        },
    };
    let xml = serialize_sidecar(&meta, &["nature".to_string(), "travel".to_string()]);
    assert!(xml.contains("   <xmp:Rating>-1</xmp:Rating>\n"));
    assert!(xml.contains("   <xmp:Label>Red</xmp:Label>\n"));
    assert!(!xml.contains("dc:title"));
    assert!(xml.contains("   <dc:creator><rdf:Seq>\n    <rdf:li>Jane Doe</rdf:li>\n   </rdf:Seq></dc:creator>\n"));
    assert!(xml.contains("    <rdf:li>nature</rdf:li>\n    <rdf:li>travel</rdf:li>\n"));
    assert!(xml.starts_with("<?xpacket begin=\"\" id=\"W5M0MpCehiHzreSzNTczkc9d\"?>\n"));
    assert!(xml.contains("xmlns:xmp=\"http://ns.adobe.com/xap/1.0/\""));
    assert!(xml.ends_with("<?xpacket end=\"w\"?>\n"));
}

#[test]
fn merge_keeps_unmanaged_properties_in_place() {
    let doc = XmpDoc {
        namespaces: vec![("exif".into(), "http://ns.adobe.com/exif/1.0/".into())],
        props: vec![
            XmpProp {
                raw_name: "exif:GPSLatitude".into(),
                ns: "http://ns.adobe.com/exif/1.0/".into(),
                local: "GPSLatitude".into(),
                value: PropValue::Simple("51,30.5N".into()),
            },
            XmpProp {
                raw_name: "dc:description".into(),
                ns: NS_DC.into(),
                local: "description".into(),
                value: PropValue::LangAlt(vec![("x-default".into(), "old caption".into())]),
            },
        ],
    };
    let meta = XmpMetadata { core: XmpCore { rating: Some(5), ..Default::default() }, ..Default::default() };
    let merged = merge_doc(doc, &meta, &[]);
    assert!(merged.contains("   <exif:GPSLatitude>51,30.5N</exif:GPSLatitude>\n"));
    assert!(merged.contains("xmlns:exif=\"http://ns.adobe.com/exif/1.0/\""));
    assert!(!merged.contains("old caption"));
    assert!(merged.contains("<xmp:Rating>5</xmp:Rating>"));
}

#[test]
fn props_serialise_by_shape() {
    let raw = XmpProp {
        raw_name: "x:y".into(),
        ns: "u".into(),
        local: "y".into(),
        value: PropValue::Raw("  <x:y a=\"1\"/>  ".into()),
    };
    assert_eq!(serialize_prop(&raw), "   <x:y a=\"1\"/>\n");
    let alt = XmpProp {
        raw_name: "dc:title".into(),
        ns: NS_DC.into(),
        local: "title".into(),
        value: PropValue::LangAlt(vec![("x-default".into(), "T".into())]),
    };
    assert_eq!(
        serialize_prop(&alt),
        "   <dc:title><rdf:Alt>\n    <rdf:li xml:lang=\"x-default\">T</rdf:li>\n   </rdf:Alt></dc:title>\n"
    );
    let bag = XmpProp {
        raw_name: "dc:subject".into(),
        ns: NS_DC.into(),
        local: "subject".into(),
        value: PropValue::Array(ArrayKind::Bag, vec!["a&b".into()]),
    };
    assert_eq!(
        serialize_prop(&bag),
        "   <dc:subject><rdf:Bag>\n    <rdf:li>a&amp;b</rdf:li>\n   </rdf:Bag></dc:subject>\n"
    );
}

#[test]
fn exif_dates_become_unix_seconds() {
    assert_eq!(exif_datetime_to_unix("1970:01:01 00:00:00"), Some(0));
    assert_eq!(exif_datetime_to_unix("2024:01:01 00:00:00"), Some(1_704_067_200));
    assert_eq!(exif_datetime_to_unix("2024:03:01 12:30:15"), Some(1_709_296_215));
    assert_eq!(exif_datetime_to_unix("2024:02:29 23:59:59"), Some(1_709_251_199));
}

#[test]
fn exif_dates_reject_bad_fields() {
    assert_eq!(exif_datetime_to_unix("2024:01:01"), None);
    assert_eq!(exif_datetime_to_unix("1969:12:31 23:59:59"), None);
    assert_eq!(exif_datetime_to_unix("2024:13:01 00:00:00"), None);
    assert_eq!(exif_datetime_to_unix("2024:00:01 00:00:00"), None);
    assert_eq!(exif_datetime_to_unix("2024:01:32 00:00:00"), None);
    assert_eq!(exif_datetime_to_unix("2024:0a:01 00:00:00"), None);
    assert_eq!(exif_datetime_to_unix("    :  :     :  :  "), None);
    // A sign is accepted by the integer parser; the field is still read.
    assert_eq!(exif_datetime_to_unix("1970:+1:02 00:00:00"), Some(86_400));
}

#[test]
fn leap_years_and_month_lengths() {
    assert!(is_leap(2000) && is_leap(2024) && !is_leap(1900) && !is_leap(2023));
    assert_eq!(days_in_month(2024, 2), 29);
    assert_eq!(days_in_month(2023, 2), 28);
    assert_eq!(days_in_month(2023, 4), 30);
    assert_eq!(days_in_month(2023, 12), 31);
    assert_eq!(days_in_month(2023, 13), 0);
    for y in [2023, 2024] {
        let total: u32 = (1..=12).map(|m| days_in_month(y, m)).sum();
        assert_eq!(total, if is_leap(y) { 366 } else { 365 });
    }
}

#[test]
fn finder_tags_split_name_and_colour() {
    assert_eq!(parse_tag("Red\n6"), AppleTag { text: "Red".into(), color_idx: 6 });
    assert_eq!(parse_tag("Work"), AppleTag { text: "Work".into(), color_idx: 0 });
    assert_eq!(parse_tag("Odd\nx"), AppleTag { text: "Odd".into(), color_idx: 0 });
    assert_eq!(parse_tag("A\n-3\n"), AppleTag { text: "A".into(), color_idx: 0 });
    assert_eq!(parse_tag("B\n+4"), AppleTag { text: "B".into(), color_idx: 4 });
    assert_eq!(parse_tag("C\n99999999999"), AppleTag { text: "C".into(), color_idx: 0 });
}

#[test]
fn tag_lists_skip_non_strings() {
    let tags = tags_from_items(vec![Some("Red\n6".into()), None, Some("Blue\n4".into())]);
    assert_eq!(tags, vec![
        AppleTag { text: "Red".into(), color_idx: 6 },
        AppleTag { text: "Blue".into(), color_idx: 4 },
    ]);
    assert!(apple_metadata_from_tags(Vec::new()).is_none());
    assert_eq!(apple_metadata_from_tags(tags.clone()).unwrap().user_tags, tags);
}

#[test]
fn binary_plist_tags_are_decoded() {
    let value = plist::Value::Array(vec![
        plist::Value::String("Green\n2".into()),
        plist::Value::Integer(plist::Integer::from(7i64)),
        plist::Value::String("Home".into()),
    ]);
    let mut bytes: Vec<u8> = Vec::new();
    value.to_writer_binary(&mut bytes).unwrap();
    assert_eq!(parse_tags_bplist(&bytes), vec![
        AppleTag { text: "Green".into(), color_idx: 2 },
        AppleTag { text: "Home".into(), color_idx: 0 },
    ]);
    assert!(parse_tags_bplist(b"not a plist").is_empty());
}
