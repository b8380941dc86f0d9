use isomfolio_core::exif_read::{
    exif_fields_of, try_exif_fields_from_bytes, ExifEntry, ExifValue,
};

fn tiff_with_make_and_model() -> Vec<u8> {
    let mut d: Vec<u8> = b"II".to_vec();
    d.extend(42u16.to_le_bytes());
    d.extend(8u32.to_le_bytes());
    d.extend(2u16.to_le_bytes());
    // Make: ASCII, 6 bytes at offset 38.
    d.extend(0x010fu16.to_le_bytes());
    d.extend(2u16.to_le_bytes());
    d.extend(6u32.to_le_bytes());
    d.extend(38u32.to_le_bytes());
    // Model: ASCII, 4 bytes inline (" X1\0").
    d.extend(0x0110u16.to_le_bytes());
    d.extend(2u16.to_le_bytes());
    d.extend(4u32.to_le_bytes());
    d.extend(b" X1\0");
    d.extend(0u32.to_le_bytes());
    d.extend(b"Canon\0");
    d
}

#[test]
fn reads_names_from_a_tiff_block() {
    let f = try_exif_fields_from_bytes(&tiff_with_make_and_model()).unwrap().unwrap();
    assert_eq!(f.camera_make.as_deref(), Some("Canon"));
    assert_eq!(f.camera_model.as_deref(), Some("X1"));
    assert_eq!(f.capture_date, None);
    assert_eq!(f.iso, None);
}

#[test]
fn no_exif_block_reads_nothing() {
    assert!(matches!(try_exif_fields_from_bytes(b"not an image at all"), Some(None)));
    assert!(matches!(try_exif_fields_from_bytes(b"plain text"), Some(None)));
}

fn entry(context: u8, tag: u16, value: ExifValue, display: &str) -> ExifEntry {
    ExifEntry { context, tag, ifd: 0, value, display: display.to_string() }
}

#[test]
fn reads_the_catalogs_fields() {
    let es = vec![
        entry(1, 0x9003, ExifValue::Ascii(vec![b"2024:03:05 10:20:30".to_vec()]), ""),
        entry(2, 0x1, ExifValue::Ascii(vec![b"S".to_vec()]), "S"),
        entry(2, 0x3, ExifValue::Ascii(vec![b"E".to_vec()]), "E"),
        entry(2, 0x2, ExifValue::Rational(vec![(51, 1), (30, 1), (0, 1)]), ""),
        entry(1, 0x829a, ExifValue::Rational(vec![(1, 250)]), ""),
        entry(1, 0x829d, ExifValue::Rational(vec![(28, 10)]), ""),
        entry(1, 0x920a, ExifValue::Rational(vec![(35, 0)]), ""),
        entry(1, 0x8833, ExifValue::Short(vec![400]), ""),
        entry(1, 0x9209, ExifValue::Short(vec![0x19]), ""),
        entry(0, 0x10f, ExifValue::Ascii(vec![b"  \0".to_vec()]), ""),
        entry(1, 0xa434, ExifValue::Ascii(vec![b"Lens A".to_vec()]), ""),
        entry(1, 0xa434, ExifValue::Ascii(vec![b"Lens B\0\0".to_vec()]), ""),
    ];
    let f = exif_fields_of(&es);
    assert_eq!(f.capture_date, Some(1709634030));
    assert!(f.lat_south);
    assert!(!f.lon_west);
    assert_eq!(f.gps_lat, Some(vec![(51, 1), (30, 1), (0, 1)]));
    assert_eq!(f.gps_lon, None);
    assert_eq!(f.shutter_speed.as_deref(), Some("1/250"));
    assert_eq!(f.aperture, Some((28, 10)));
    assert_eq!(f.focal_length, None);
    assert_eq!(f.iso, Some(400));
    assert_eq!(f.flash, Some(true));
    assert_eq!(f.camera_make, None);
    assert_eq!(f.lens_model.as_deref(), Some("Lens B"));
}

#[test]
fn shutter_text_forms() {
    let one = |r: (u32, u32)| {
        let es = vec![entry(1, 0x829a, ExifValue::Rational(vec![r]), "")];
        exif_fields_of(&es).shutter_speed
    };
    assert_eq!(one((0, 1)).as_deref(), Some("0"));
    assert_eq!(one((10, 4000)).as_deref(), Some("10/4000"));
}
