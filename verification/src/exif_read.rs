//! The camera facts of a photo's EXIF block: capture time, GPS position
//! parts, camera and lens names, exposure settings.

use vstd::prelude::*;
use vstd::string::*;
use vstd::utf8::*;
use crate::exif::{cut_points_are_boundaries, exif_datetime_to_unix, exif_seconds};
use crate::text::{
    chars_of, nat_text, nat_to_text, push_chars, push_str, string_of, trim_chars, trim_end_char,
    trim_end_matches_char, trim_spec,
};
use crate::xml::utf8_text;

verus! {

/// A value of an EXIF field, as far as the catalog reads it: text
/// components, unsigned shorts, unsigned rationals (numerator, denominator),
/// or another kind.
#[derive(Debug)]
pub enum ExifValue {
    Ascii(Vec<Vec<u8>>),
    Short(Vec<u16>),
    Rational(Vec<(u32, u32)>),
    Other,
}

/// The mathematical value of an EXIF value.
pub enum ExifValueView {
    Ascii(Seq<Seq<u8>>),
    Short(Seq<u16>),
    Rational(Seq<(u32, u32)>),
    Other,
}

/// One field of an EXIF block: the tag's context (0 TIFF, 1 Exif, 2 GPS,
/// 3 interoperability), the tag number, the IFD number, the value, and the
/// value as the `exif` crate displays it for that tag.
#[derive(Debug)]
pub struct ExifEntry {
    pub context: u8,
    pub tag: u16,
    pub ifd: u16,
    pub value: ExifValue,
    pub display: String,
}

/// The mathematical value of an EXIF field.
pub struct EntryView {
    pub context: u8,
    pub tag: u16,
    pub ifd: u16,
    pub value: ExifValueView,
    pub display: Seq<char>,
}

/// The value of an EXIF value.
pub open spec fn value_view(v: ExifValue) -> ExifValueView {
    match v {
        ExifValue::Ascii(cs) => ExifValueView::Ascii(cs@.map_values(|c: Vec<u8>| c@)),
        ExifValue::Short(s) => ExifValueView::Short(s@),
        ExifValue::Rational(r) => ExifValueView::Rational(r@),
        ExifValue::Other => ExifValueView::Other,
    }
}

/// The value of an EXIF field.
pub open spec fn entry_view(e: ExifEntry) -> EntryView {
    EntryView { context: e.context, tag: e.tag, ifd: e.ifd, value: value_view(e.value), display: e.display@ }
}

/// The values of a list of EXIF fields.
pub open spec fn entries_view(v: Seq<ExifEntry>) -> Seq<EntryView> {
    v.map_values(|e: ExifEntry| entry_view(e))
}

/// The fields, in order, that `exif::Reader::read_from_container` finds in
/// an image file's bytes; `None` when it finds no readable EXIF block.
pub uninterp spec fn exif_entries(data: Seq<u8>) -> Option<Seq<EntryView>>;

/// `exif::Reader::new().read_from_container` on the bytes, then each of
/// `Exif::fields()` converted one for one: the tag's context and number, the
/// IFD number, the value (ASCII, short and rational values kept, other kinds
/// marked as such), and `Field::display_value()` as text. The reading is
/// named `exif_entries`.
#[verifier::external_body]
fn read_exif_entries(data: &[u8]) -> (r: Option<Vec<ExifEntry>>)
    ensures
        match r {
            Some(v) => exif_entries(data@) == Some(entries_view(v@)),
            None => exif_entries(data@) is None,
        },
{
    let exif = exif::Reader::new().read_from_container(&mut std::io::Cursor::new(data)).ok()?;
    Some(exif.fields().map(|f| ExifEntry {
        context: f.tag.0 as u8,
        tag: f.tag.1,
        ifd: f.ifd_num.0,
        value: match &f.value {
            exif::Value::Ascii(v) => ExifValue::Ascii(v.clone()),
            exif::Value::Short(v) => ExifValue::Short(v.clone()),
            exif::Value::Rational(v) => ExifValue::Rational(v.iter().map(|x| (x.num, x.denom)).collect()),
            _ => ExifValue::Other,
        },
        display: f.display_value().to_string(),
    }).collect())
}

// ---------------------------------------------------------------------------
// What the catalog reads
// ---------------------------------------------------------------------------

/// The field `Exif::get_field` gives for a tag in the primary image: the
/// last field with that context and number in IFD 0.
pub open spec fn primary(es: Seq<EntryView>, context: u8, tag: u16) -> Option<EntryView>
    decreases es.len(),
{
    if es.len() == 0 {
        None
    } else if es.last().context == context && es.last().tag == tag && es.last().ifd == 0 {
        Some(es.last())
    } else {
        primary(es.drop_last(), context, tag)
    }
}

/// The first text component of an ASCII value, when it is valid UTF-8.
pub open spec fn ascii_first(v: ExifValueView) -> Option<Seq<u8>> {
    match v {
        ExifValueView::Ascii(cs) => if cs.len() > 0 && valid_utf8(cs[0]) {
            Some(cs[0])
        } else {
            None
        },
        _ => None,
    }
}

/// A name field: the first text component without trailing NULs and
/// surrounding whitespace; `None` when that leaves nothing.
pub open spec fn name_text(f: Option<EntryView>) -> Option<Seq<char>> {
    match f {
        Some(e) => match ascii_first(e.value) {
            Some(b) => {
                let t = trim_spec(trim_end_char(decode_utf8(b), '\0'));
                if t.len() == 0 {
                    None
                } else {
                    Some(t)
                }
            },
            None => None,
        },
        None => None,
    }
}

/// The first rational of a field, when its denominator is not zero.
pub open spec fn first_rational(f: Option<EntryView>) -> Option<(u32, u32)> {
    match f {
        Some(e) => match e.value {
            ExifValueView::Rational(rs) => if rs.len() > 0 && rs[0].1 != 0 {
                Some(rs[0])
            } else {
                None
            },
            _ => None,
        },
        None => None,
    }
}

/// Degrees, minutes and seconds: the first three rationals of a field that
/// has at least three.
pub open spec fn dms(f: Option<EntryView>) -> Option<Seq<(u32, u32)>> {
    match f {
        Some(e) => match e.value {
            ExifValueView::Rational(rs) => if rs.len() >= 3 {
                Some(rs.take(3))
            } else {
                None
            },
            _ => None,
        },
        None => None,
    }
}

/// The exposure time as text: `0`, `1/den`, or `num/den`, from the first
/// rational.
pub open spec fn shutter_text(f: Option<EntryView>) -> Option<Seq<char>> {
    match f {
        Some(e) => match e.value {
            ExifValueView::Rational(rs) => if rs.len() > 0 {
                let (n, d) = rs[0];
                Some(
                    if n == 0 {
                        "0"@
                    } else if n == 1 {
                        "1/"@ + nat_text(d as nat)
                    } else {
                        nat_text(n as nat) + "/"@ + nat_text(d as nat)
                    },
                )
            } else {
                None
            },
            _ => None,
        },
        None => None,
    }
}

/// The first short of a field.
pub open spec fn first_short(f: Option<EntryView>) -> Option<u16> {
    match f {
        Some(e) => match e.value {
            ExifValueView::Short(s) => if s.len() > 0 {
                Some(s[0])
            } else {
                None
            },
            _ => None,
        },
        None => None,
    }
}

/// Whether a field is there and its displayed value holds `c`.
pub open spec fn display_has(f: Option<EntryView>, c: char) -> bool {
    match f {
        Some(e) => e.display.contains(c),
        None => false,
    }
}

/// The capture time: the first text component of `DateTimeOriginal` read as
/// `YYYY:MM:DD HH:MM:SS`.
pub open spec fn capture_seconds(es: Seq<EntryView>) -> Option<i64> {
    match primary(es, 1, 0x9003) {
        Some(e) => match ascii_first(e.value) {
            Some(b) => match exif_seconds(b) {
                Some(v) => Some(v as i64),
                None => None,
            },
            None => None,
        },
        None => None,
    }
}

/// Whether the date text, when long enough to be read, can be cut at its
/// field boundaries (it can unless a multi-byte character spans one).
pub open spec fn date_cuttable(es: Seq<EntryView>) -> bool {
    match primary(es, 1, 0x9003) {
        Some(e) => match ascii_first(e.value) {
            Some(b) => b.len() >= 19 ==> cut_points_are_boundaries(b),
            None => true,
        },
        None => true,
    }
}

/// The catalog's reading of an EXIF block.
pub struct ExifFields {
    pub capture_date: Option<i64>,
    pub lat_south: bool,
    pub lon_west: bool,
    pub gps_lat: Option<Vec<(u32, u32)>>,
    pub gps_lon: Option<Vec<(u32, u32)>>,
    pub camera_make: Option<String>,
    pub camera_model: Option<String>,
    pub lens_model: Option<String>,
    pub focal_length: Option<(u32, u32)>,
    pub aperture: Option<(u32, u32)>,
    pub shutter_speed: Option<String>,
    pub iso: Option<i32>,
    pub flash: Option<bool>,
}

/// The mathematical value of the catalog's reading.
pub struct FieldsView {
    pub capture_date: Option<i64>,
    pub lat_south: bool,
    pub lon_west: bool,
    pub gps_lat: Option<Seq<(u32, u32)>>,
    pub gps_lon: Option<Seq<(u32, u32)>>,
    pub camera_make: Option<Seq<char>>,
    pub camera_model: Option<Seq<char>>,
    pub lens_model: Option<Seq<char>>,
    pub focal_length: Option<(u32, u32)>,
    pub aperture: Option<(u32, u32)>,
    pub shutter_speed: Option<Seq<char>>,
    pub iso: Option<int>,
    pub flash: Option<bool>,
}

/// The value of an optional string.
pub open spec fn opt_string(o: Option<String>) -> Option<Seq<char>> {
    match o {
        Some(s) => Some(s@),
        None => None,
    }
}

/// The value of an optional list of rationals.
pub open spec fn opt_rationals(o: Option<Vec<(u32, u32)>>) -> Option<Seq<(u32, u32)>> {
    match o {
        Some(v) => Some(v@),
        None => None,
    }
}

/// The value of the catalog's reading.
pub open spec fn fields_view(f: ExifFields) -> FieldsView {
    FieldsView {
        capture_date: f.capture_date,
        lat_south: f.lat_south,
        lon_west: f.lon_west,
        gps_lat: opt_rationals(f.gps_lat),
        gps_lon: opt_rationals(f.gps_lon),
        camera_make: opt_string(f.camera_make),
        camera_model: opt_string(f.camera_model),
        lens_model: opt_string(f.lens_model),
        focal_length: f.focal_length,
        aperture: f.aperture,
        shutter_speed: opt_string(f.shutter_speed),
        iso: match f.iso {
            Some(v) => Some(v as int),
            None => None,
        },
        flash: f.flash,
    }
}

/// What the catalog reads from the fields of an EXIF block, all in the
/// primary image: the capture time; whether the latitude and longitude
/// references are south and west; the GPS latitude and longitude as degrees,
/// minutes and seconds; make, model and lens; focal length and f-number;
/// the exposure time as text; the ISO speed; and whether the flash fired
/// (the low bit of `Flash`).
pub open spec fn exif_summary(es: Seq<EntryView>) -> FieldsView {
    FieldsView {
        capture_date: capture_seconds(es),
        lat_south: display_has(primary(es, 2, 0x1), 'S'),
        lon_west: display_has(primary(es, 2, 0x3), 'W'),
        gps_lat: dms(primary(es, 2, 0x2)),
        gps_lon: dms(primary(es, 2, 0x4)),
        camera_make: name_text(primary(es, 0, 0x10f)),
        camera_model: name_text(primary(es, 0, 0x110)),
        lens_model: name_text(primary(es, 1, 0xa434)),
        focal_length: first_rational(primary(es, 1, 0x920a)),
        aperture: first_rational(primary(es, 1, 0x829d)),
        shutter_speed: shutter_text(primary(es, 1, 0x829a)),
        iso: match first_short(primary(es, 1, 0x8833)) {
            Some(n) => Some(n as int),
            None => None,
        },
        flash: match first_short(primary(es, 1, 0x9209)) {
            Some(n) => Some(n % 2 == 1),
            None => None,
        },
    }
}


// ---------------------------------------------------------------------------
// Reading the fields
// ---------------------------------------------------------------------------

/// Index of the field `Exif::get_field` gives for a tag in the primary image.
fn find_primary(es: &Vec<ExifEntry>, context: u8, tag: u16) -> (r: Option<usize>)
    ensures
        match r {
            Some(i) => i < es@.len() && primary(entries_view(es@), context, tag) == Some(
                entries_view(es@)[i as int],
            ),
            None => primary(entries_view(es@), context, tag) is None,
        },
{
    let ghost ev = entries_view(es@);
    proof {
        assert(ev.take(es@.len() as int) =~= ev);
    }
    let mut k: usize = es.len();
    while k > 0
        invariant
            k <= es@.len(),
            ev == entries_view(es@),
            primary(ev, context, tag) == primary(ev.take(k as int), context, tag),
        decreases k,
    {
        let e = &es[k - 1];
        proof {
            assert(ev.take(k as int).drop_last() =~= ev.take(k - 1));
            assert(ev.take(k as int).last() == ev[k - 1]);
        }
        if e.context == context && e.tag == tag && e.ifd == 0 {
            return Some(k - 1);
        }
        k = k - 1;
    }
    None
}

fn copy_bytes(v: &Vec<u8>) -> (r: Vec<u8>)
    ensures
        r@ == v@,
{
    let mut r: Vec<u8> = Vec::new();
    let mut k: usize = 0;
    while k < v.len()
        invariant
            k <= v@.len(),
            r@ == v@.take(k as int),
        decreases v@.len() - k,
    {
        r.push(v[k]);
        proof {
            assert(v@.take(k + 1) =~= v@.take(k as int).push(v@[k as int]));
        }
        k = k + 1;
    }
    proof {
        assert(v@.take(v@.len() as int) =~= v@);
    }
    r
}

/// The first text component of an ASCII field, decoded, when it is UTF-8.
fn first_text(v: &ExifValue) -> (r: Option<String>)
    ensures
        match ascii_first(value_view(*v)) {
            Some(b) => r matches Some(s) && s@ == decode_utf8(b) && encode_utf8(s@) == b,
            None => r is None,
        },
{
    match v {
        ExifValue::Ascii(cs) => {
            if cs.len() == 0 {
                return None;
            }
            let b = copy_bytes(&cs[0]);
            proof {
                assert(cs@.map_values(|c: Vec<u8>| c@)[0] == cs@[0]@);
            }
            match utf8_text(b.as_slice()) {
                Some(s) => {
                    proof {
                        decode_utf8_encode_utf8(b@);
                    }
                    Some(s)
                },
                None => None,
            }
        },
        _ => None,
    }
}

fn name_of(es: &Vec<ExifEntry>, context: u8, tag: u16) -> (r: Option<String>)
    ensures
        opt_string(r) == name_text(primary(entries_view(es@), context, tag)),
{
    let i = match find_primary(es, context, tag) {
        Some(i) => i,
        None => return None,
    };
    let t = match first_text(&es[i].value) {
        Some(t) => t,
        None => return None,
    };
    let c = chars_of(t.as_str());
    let no_nul = trim_end_matches_char(&c, '\0');
    let trimmed = trim_chars(&no_nul);
    if trimmed.len() == 0 {
        None
    } else {
        Some(string_of(&trimmed))
    }
}

fn rational_of(es: &Vec<ExifEntry>, context: u8, tag: u16) -> (r: Option<(u32, u32)>)
    ensures
        r == first_rational(primary(entries_view(es@), context, tag)),
{
    let i = match find_primary(es, context, tag) {
        Some(i) => i,
        None => return None,
    };
    match &es[i].value {
        ExifValue::Rational(rs) => {
            if rs.len() > 0 && rs[0].1 != 0 {
                Some(rs[0])
            } else {
                None
            }
        },
        _ => None,
    }
}

fn dms_of(es: &Vec<ExifEntry>, context: u8, tag: u16) -> (r: Option<Vec<(u32, u32)>>)
    ensures
        opt_rationals(r) == dms(primary(entries_view(es@), context, tag)),
{
    let i = match find_primary(es, context, tag) {
        Some(i) => i,
        None => return None,
    };
    match &es[i].value {
        ExifValue::Rational(rs) => {
            if rs.len() >= 3 {
                let v = vec![rs[0], rs[1], rs[2]];
                proof {
                    assert(v@ =~= rs@.take(3));
                }
                Some(v)
            } else {
                None
            }
        },
        _ => None,
    }
}

fn shutter_of(es: &Vec<ExifEntry>) -> (r: Option<String>)
    ensures
        opt_string(r) == shutter_text(primary(entries_view(es@), 1, 0x829a)),
{
    let i = match find_primary(es, 1, 0x829a) {
        Some(i) => i,
        None => return None,
    };
    match &es[i].value {
        ExifValue::Rational(rs) => {
            if rs.len() == 0 {
                return None;
            }
            let (n, d) = rs[0];
            let mut v: Vec<char> = Vec::new();
            if n == 0 {
                push_str(&mut v, "0");
            } else {
                if n != 1 {
                    let digits = nat_to_text(n as u64);
                    push_chars(&mut v, &digits);
                    push_str(&mut v, "/");
                } else {
                    push_str(&mut v, "1/");
                }
                let digits = nat_to_text(d as u64);
                push_chars(&mut v, &digits);
            }
            proof {
                if n == 0 {
                    assert(v@ =~= "0"@);
                } else if n == 1 {
                    assert(v@ =~= "1/"@ + nat_text(d as nat));
                } else {
                    assert(v@ =~= nat_text(n as nat) + "/"@ + nat_text(d as nat));
                }
            }
            Some(string_of(&v))
        },
        _ => None,
    }
}

fn short_of(es: &Vec<ExifEntry>, context: u8, tag: u16) -> (r: Option<u16>)
    ensures
        r == first_short(primary(entries_view(es@), context, tag)),
{
    let i = match find_primary(es, context, tag) {
        Some(i) => i,
        None => return None,
    };
    match &es[i].value {
        ExifValue::Short(s) => {
            if s.len() > 0 {
                Some(s[0])
            } else {
                None
            }
        },
        _ => None,
    }
}

fn display_contains(es: &Vec<ExifEntry>, context: u8, tag: u16, c: char) -> (r: bool)
    ensures
        r == display_has(primary(entries_view(es@), context, tag), c),
{
    let i = match find_primary(es, context, tag) {
        Some(i) => i,
        None => return false,
    };
    let t = chars_of(es[i].display.as_str());
    assert(entries_view(es@)[i as int].display == es@[i as int].display@);
    assert(t@ == es@[i as int].display@);
    let mut k: usize = 0;
    while k < t.len()
        invariant
            k <= t@.len(),
            i < es@.len(),
            t@ == entries_view(es@)[i as int].display,
            primary(entries_view(es@), context, tag) == Some(entries_view(es@)[i as int]),
            forall|a: int| 0 <= a < k ==> t@[a] != c,
        decreases t@.len() - k,
    {
        if t[k] == c {
            assert(t@[k as int] == c);
            assert(t@.contains(c));
            assert(entries_view(es@)[i as int].display.contains(c));
            return true;
        }
        k = k + 1;
    }
    false
}

fn date_of(es: &Vec<ExifEntry>) -> (r: Option<i64>)
    requires
        date_cuttable(entries_view(es@)),
    ensures
        r == capture_seconds(entries_view(es@)),
{
    let i = match find_primary(es, 1, 0x9003) {
        Some(i) => i,
        None => return None,
    };
    match first_text(&es[i].value) {
        Some(t) => exif_datetime_to_unix(t.as_str()),
        None => None,
    }
}

/// Whether the date text of the fields can be cut at its field boundaries.
pub fn date_text_cuttable(es: &Vec<ExifEntry>) -> (b: bool)
    ensures
        b == date_cuttable(entries_view(es@)),
{
    let i = match find_primary(es, 1, 0x9003) {
        Some(i) => i,
        None => return true,
    };
    assert(entries_view(es@)[i as int].value == value_view(es@[i as int].value));
    match first_text(&es[i].value) {
        Some(t) => {
            let s = t.as_str();
            let ghost b = ascii_first(value_view(es@[i as int].value))->0;
            assert(s.spec_bytes() == b);
            assert(primary(entries_view(es@), 1, 0x9003) == Some(entries_view(es@)[i as int]));
            assert(ascii_first(entries_view(es@)[i as int].value) == Some(b));
            if s.as_bytes().len() < 19 {
                return true;
            }
            s.is_char_boundary(4) && s.is_char_boundary(5) && s.is_char_boundary(7)
                && s.is_char_boundary(8) && s.is_char_boundary(10) && s.is_char_boundary(11)
                && s.is_char_boundary(13) && s.is_char_boundary(14) && s.is_char_boundary(16)
                && s.is_char_boundary(17) && s.is_char_boundary(19)
        },
        None => true,
    }
}

/// The catalog's reading of the fields of an EXIF block.
pub fn exif_fields_of(es: &Vec<ExifEntry>) -> (r: ExifFields)
    requires
        date_cuttable(entries_view(es@)),
    ensures
        fields_view(r) == exif_summary(entries_view(es@)),
{
    let iso = match short_of(es, 1, 0x8833) {
        Some(n) => Some(n as i32),
        None => None,
    };
    let flash = match short_of(es, 1, 0x9209) {
        Some(n) => Some(n % 2 == 1),
        None => None,
    };
    let r = ExifFields {
        capture_date: date_of(es),
        lat_south: display_contains(es, 2, 0x1, 'S'),
        lon_west: display_contains(es, 2, 0x3, 'W'),
        gps_lat: dms_of(es, 2, 0x2),
        gps_lon: dms_of(es, 2, 0x4),
        camera_make: name_of(es, 0, 0x10f),
        camera_model: name_of(es, 0, 0x110),
        lens_model: name_of(es, 1, 0xa434),
        focal_length: rational_of(es, 1, 0x920a),
        aperture: rational_of(es, 1, 0x829d),
        shutter_speed: shutter_of(es),
        iso,
        flash,
    };
    let ghost v = fields_view(r);
    let ghost w = exif_summary(entries_view(es@));
    assert(v.capture_date == w.capture_date);
    assert(v.lat_south == w.lat_south && v.lon_west == w.lon_west);
    assert(v.gps_lat == w.gps_lat && v.gps_lon == w.gps_lon);
    assert(v.camera_make == w.camera_make && v.camera_model == w.camera_model);
    assert(v.lens_model == w.lens_model);
    assert(v.focal_length == w.focal_length && v.aperture == w.aperture);
    assert(v.shutter_speed == w.shutter_speed);
    assert(v.iso == w.iso);
    assert(v.flash == w.flash);
    r
}

/// The catalog's reading of the EXIF block in an image file's bytes:
/// `Some(None)` when there is no readable block; `None` when the date text
/// cannot be cut at its field boundaries; otherwise the reading.
pub fn try_exif_fields_from_bytes(data: &[u8]) -> (r: Option<Option<ExifFields>>)
    ensures
        match exif_entries(data@) {
            Some(es) => if date_cuttable(es) {
                r matches Some(Some(f)) && fields_view(f) == exif_summary(es)
            } else {
                r is None
            },
            None => r matches Some(None),
        },
{
    match read_exif_entries(data) {
        Some(es) => {
            if date_text_cuttable(&es) {
                Some(Some(exif_fields_of(&es)))
            } else {
                None
            }
        },
        None => Some(None),
    }
}


/// Whether `e` is the IFD 0 field with tag `tag` in context `context`.
pub open spec fn is_field(e: EntryView, context: u8, tag: u16) -> bool {
    e.context == context && e.tag == tag && e.ifd == 0
}

/// Entry `i` is the last field of its kind.
pub open spec fn last_field_at(es: Seq<EntryView>, context: u8, tag: u16, i: int) -> bool {
    &&& 0 <= i < es.len()
    &&& is_field(es[i], context, tag)
    &&& forall|j: int| i < j < es.len() ==> !is_field(#[trigger] es[j], context, tag)
}

proof fn lemma_primary_is_last(es: Seq<EntryView>, context: u8, tag: u16)
    ensures
        primary(es, context, tag) matches Some(e) ==> exists|i: int|
            #[trigger] last_field_at(es, context, tag, i) && es[i] == e,
        primary(es, context, tag) is None ==> forall|i: int|
            0 <= i < es.len() ==> !is_field(#[trigger] es[i], context, tag),
        forall|i: int|
            #[trigger] last_field_at(es, context, tag, i) ==> primary(es, context, tag) == Some(es[i]),
    decreases es.len(),
{
    if es.len() > 0 {
        let d = es.drop_last();
        lemma_primary_is_last(d, context, tag);
        let n = es.len() - 1;
        if is_field(es.last(), context, tag) {
            assert(last_field_at(es, context, tag, n));
            assert forall|i: int| #[trigger] last_field_at(es, context, tag, i) implies primary(
                es,
                context,
                tag,
            ) == Some(es[i]) by {
                if i < n {
                    assert(!is_field(es[n], context, tag));
                }
            }
        } else {
            if primary(d, context, tag) is Some {
                let e = primary(d, context, tag)->0;
                let i = choose|i: int| #[trigger] last_field_at(d, context, tag, i) && d[i] == e;
                assert(last_field_at(es, context, tag, i)) by {
                    assert forall|j: int| i < j < es.len() implies !is_field(#[trigger] es[j], context, tag) by {
                        if j < n {
                            assert(es[j] == d[j]);
                        }
                    }
                }
                assert(es[i] == d[i]);
            }
            assert forall|i: int| 0 <= i < es.len() && primary(es, context, tag) is None implies !is_field(
                #[trigger] es[i],
                context,
                tag,
            ) by {
                if i < n {
                    assert(es[i] == d[i]);
                }
            }
            assert forall|i: int| #[trigger] last_field_at(es, context, tag, i) implies primary(
                es,
                context,
                tag,
            ) == Some(es[i]) by {
                assert(i < n);
                assert(last_field_at(d, context, tag, i)) by {
                    assert forall|j: int| i < j < d.len() implies !is_field(#[trigger] d[j], context, tag) by {
                        assert(d[j] == es[j]);
                    }
                }
            }
        }
    }
}

/// The GPS hemisphere flags come from the GPS reference fields alone: the
/// latitude is south exactly when the last GPSLatitudeRef field (GPS
/// context, tag 1) shows an `S`, and the longitude is west exactly when the
/// last GPSLongitudeRef field (GPS context, tag 3) shows a `W`.
pub proof fn lemma_gps_hemispheres(es: Seq<EntryView>)
    ensures
        exif_summary(es).lat_south <==> exists|i: int|
            #[trigger] last_field_at(es, 2, 0x1, i) && es[i].display.contains('S'),
        exif_summary(es).lon_west <==> exists|i: int|
            #[trigger] last_field_at(es, 2, 0x3, i) && es[i].display.contains('W'),
{
    lemma_primary_is_last(es, 2, 0x1);
    lemma_primary_is_last(es, 2, 0x3);
}


/// The fields of `es` of one kind, in order.
pub open spec fn only_field(es: Seq<EntryView>, context: u8, tag: u16) -> Seq<EntryView> {
    es.filter(|e: EntryView| is_field(e, context, tag))
}

proof fn lemma_primary_of_only(es: Seq<EntryView>, context: u8, tag: u16, c2: u8, t2: u16)
    ensures
        primary(only_field(es, context, tag), c2, t2) == if c2 == context && t2 == tag {
            primary(es, context, tag)
        } else {
            None
        },
    decreases es.len(),
{
    reveal(Seq::filter);
    if es.len() > 0 {
        lemma_primary_of_only(es.drop_last(), context, tag, c2, t2);
        assert(only_field(es, context, tag) == if is_field(es.last(), context, tag) {
            only_field(es.drop_last(), context, tag).push(es.last())
        } else {
            only_field(es.drop_last(), context, tag)
        });
        if is_field(es.last(), context, tag) {
            assert(only_field(es, context, tag).drop_last() =~= only_field(es.drop_last(), context, tag));
        }
    }
}

/// Each catalog field is read from its own EXIF field and from nothing else:
/// keeping only that EXIF field (capture date: DateTimeOriginal; GPS:
/// GPSLatitudeRef, GPSLatitude, GPSLongitudeRef, GPSLongitude; camera make
/// and model: Make, Model; lens: LensModel; focal length: FocalLength;
/// aperture: FNumber; shutter: ExposureTime; ISO: PhotographicSensitivity;
/// flash: Flash) gives the same value.
pub proof fn lemma_fields_read_from_their_tags(es: Seq<EntryView>)
    ensures
        exif_summary(es).capture_date == exif_summary(only_field(es, 1, 0x9003)).capture_date,
        exif_summary(es).lat_south == exif_summary(only_field(es, 2, 0x1)).lat_south,
        exif_summary(es).gps_lat == exif_summary(only_field(es, 2, 0x2)).gps_lat,
        exif_summary(es).lon_west == exif_summary(only_field(es, 2, 0x3)).lon_west,
        exif_summary(es).gps_lon == exif_summary(only_field(es, 2, 0x4)).gps_lon,
        exif_summary(es).camera_make == exif_summary(only_field(es, 0, 0x10f)).camera_make,
        exif_summary(es).camera_model == exif_summary(only_field(es, 0, 0x110)).camera_model,
        exif_summary(es).lens_model == exif_summary(only_field(es, 1, 0xa434)).lens_model,
        exif_summary(es).focal_length == exif_summary(only_field(es, 1, 0x920a)).focal_length,
        exif_summary(es).aperture == exif_summary(only_field(es, 1, 0x829d)).aperture,
        exif_summary(es).shutter_speed == exif_summary(only_field(es, 1, 0x829a)).shutter_speed,
        exif_summary(es).iso == exif_summary(only_field(es, 1, 0x8833)).iso,
        exif_summary(es).flash == exif_summary(only_field(es, 1, 0x9209)).flash,
{
    lemma_primary_of_only(es, 1, 0x9003, 1, 0x9003);
    lemma_primary_of_only(es, 2, 0x1, 2, 0x1);
    lemma_primary_of_only(es, 2, 0x2, 2, 0x2);
    lemma_primary_of_only(es, 2, 0x3, 2, 0x3);
    lemma_primary_of_only(es, 2, 0x4, 2, 0x4);
    lemma_primary_of_only(es, 0, 0x10f, 0, 0x10f);
    lemma_primary_of_only(es, 0, 0x110, 0, 0x110);
    lemma_primary_of_only(es, 1, 0xa434, 1, 0xa434);
    lemma_primary_of_only(es, 1, 0x920a, 1, 0x920a);
    lemma_primary_of_only(es, 1, 0x829d, 1, 0x829d);
    lemma_primary_of_only(es, 1, 0x829a, 1, 0x829a);
    lemma_primary_of_only(es, 1, 0x8833, 1, 0x8833);
    lemma_primary_of_only(es, 1, 0x9209, 1, 0x9209);
}

/// Flash is reported as fired exactly when bit 0 of the last Flash field's
/// first value is set; it is unknown when there is no such short value.
pub proof fn lemma_flash_bit(es: Seq<EntryView>)
    ensures
        exif_summary(es).flash matches Some(fired) ==> exists|i: int|
            #[trigger] last_field_at(es, 1, 0x9209, i) && (es[i].value matches ExifValueView::Short(s)
                && s.len() > 0 && (fired <==> s[0] % 2 == 1)),
        (exists|i: int|
            #[trigger] last_field_at(es, 1, 0x9209, i) && (es[i].value matches ExifValueView::Short(s)
                && s.len() > 0)) ==> exif_summary(es).flash is Some,
{
    lemma_primary_is_last(es, 1, 0x9209);
}

} // verus!
