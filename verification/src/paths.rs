//! Catalog layout and path keys: where a catalog keeps its database, caches
//! and crops, which file extensions are indexed, and the stable id of a file.

use vstd::prelude::*;
use vstd::string::*;
use crate::text::{trim_chars, trim_spec, chars_eq, push_str};
use crate::thumbnail_queue::strings_view;
use crate::text::{chars_of, string_of, to_lowercase, lowercase, trim_start_matches_char,
    trim_start_char, trim_end_matches_char, trim_end_char, str_eq, concat_str};

verus! {

/// Extension of a catalog directory.
pub const CATALOG_EXT: &'static str = "isfcatalog";

/// The platform's path separator (`std::path::MAIN_SEPARATOR`).
#[verifier::external_body]
pub fn main_separator() -> (c: char)
    ensures
        c == '/' || c == '\\',
{
    std::path::MAIN_SEPARATOR
}

/// The path `base` joined with `comp` (`Path::join`), as text.
pub uninterp spec fn joined_path(base: Seq<char>, comp: Seq<char>) -> Seq<char>;

/// `Path::join` followed by `to_string_lossy`: appends `comp` to `base` with a
/// separator, or replaces `base` when `comp` is absolute. The platform rules
/// are left to the name `joined_path`; both inputs are valid UTF-8, so the
/// lossy conversion changes nothing.
#[verifier::external_body]
pub fn path_join(base: &str, comp: &str) -> (r: String)
    ensures
        r@ == joined_path(base@, comp@),
{
    std::path::Path::new(base).join(comp).to_string_lossy().into_owned()
}

/// Directory of cached thumbnails inside a catalog.
pub fn thumbnail_cache_dir(catalog_dir: &str) -> (r: String)
    ensures
        r@ == joined_path(catalog_dir@, "thumbnails"@),
{
    path_join(catalog_dir, "thumbnails")
}

/// Cached thumbnail of a file: `<catalog>/thumbnails/<id>.jpg`.
pub fn thumbnail_cache_path(catalog_dir: &str, file_id: &str) -> (r: String)
    ensures
        r@ == joined_path(joined_path(catalog_dir@, "thumbnails"@), file_id@ + ".jpg"@),
{
    let dir = thumbnail_cache_dir(catalog_dir);
    let name = concat_str(file_id, ".jpg");
    path_join(dir.as_str(), name.as_str())
}

/// The catalog database file.
pub fn db_path(catalog_dir: &str) -> (r: String)
    ensures
        r@ == joined_path(catalog_dir@, "catalog.db"@),
{
    path_join(catalog_dir, "catalog.db")
}

/// Directory of face crops inside a catalog.
pub fn face_crop_dir(catalog_dir: &str) -> (r: String)
    ensures
        r@ == joined_path(catalog_dir@, "face-crops"@),
{
    path_join(catalog_dir, "face-crops")
}

/// Representative face crop of a person: `<catalog>/face-crops/<id>.jpg`.
pub fn face_crop_path(catalog_dir: &str, cluster_id: &str) -> (r: String)
    ensures
        r@ == joined_path(joined_path(catalog_dir@, "face-crops"@), cluster_id@ + ".jpg"@),
{
    let dir = face_crop_dir(catalog_dir);
    let name = concat_str(cluster_id, ".jpg");
    path_join(dir.as_str(), name.as_str())
}

/// Directory a new catalog named `name` gets under `parent_dir`.
pub fn catalog_dir_path(parent_dir: &str, name: &str) -> (r: String)
    ensures
        r@ == joined_path(parent_dir@, name@ + "."@ + CATALOG_EXT@),
{
    let with_dot = concat_str(name, ".");
    let file = concat_str(with_dot.as_str(), CATALOG_EXT);
    path_join(parent_dir, file.as_str())
}

/// The per-user data directory of the application, when the platform has one
/// (`directories::ProjectDirs::from("", "", "IsomFolio")` and its
/// `data_dir`). Which directory it is depends on the user's environment and
/// is left unsaid; the crate builds it by joining the project's path onto a
/// base directory (the home directory or an absolute platform directory), so
/// a directory it hands back is never an empty path.
#[verifier::external_body]
fn project_data_dir() -> (r: Option<String>)
    ensures
        r matches Some(d) ==> d@.len() > 0,
{
    directories::ProjectDirs::from("", "", "IsomFolio").map(
        |d| d.data_dir().to_string_lossy().into_owned(),
    )
}

/// The application data root: the platform data directory, or the current
/// directory when there is none.
pub fn data_root_from(dir: Option<String>) -> (r: String)
    ensures
        r@ == match dir {
            Some(d) => d@,
            None => "."@,
        },
{
    match dir {
        Some(d) => d,
        None => String::from_str("."),
    }
}

/// The application data root of this user: the platform's data directory
/// for the application, or the current directory (`.`) when the platform
/// gives none. Either way it is a non-empty path.
pub fn app_data_root() -> (r: String)
    ensures
        r@.len() > 0,
{
    let dir = project_data_dir();
    proof {
        reveal_strlit(".");
    }
    data_root_from(dir)
}

/// Directory of installed extensions under the data root.
pub fn extensions_dir() -> (r: String)
    ensures
        exists|root: Seq<char>| r@ == joined_path(root, "extensions"@),
{
    let root = app_data_root();
    path_join(root.as_str(), "extensions")
}

/// Directory of downloaded models under the data root.
pub fn models_dir() -> (r: String)
    ensures
        exists|root: Seq<char>| r@ == joined_path(root, "models"@),
{
    let root = app_data_root();
    path_join(root.as_str(), "models")
}

/// Directory of crash reports under the data root.
pub fn crash_reports_dir() -> (r: String)
    ensures
        exists|root: Seq<char>| r@ == joined_path(root, "crash-reports"@),
{
    let root = app_data_root();
    path_join(root.as_str(), "crash-reports")
}

/// Settings file under the data root.
pub fn settings_path() -> (r: String)
    ensures
        exists|root: Seq<char>| r@ == joined_path(root, "settings.json"@),
{
    let root = app_data_root();
    path_join(root.as_str(), "settings.json")
}

/// Last-session file under the data root.
pub fn session_file_path() -> (r: String)
    ensures
        exists|root: Seq<char>| r@ == joined_path(root, "session.json"@),
{
    let root = app_data_root();
    path_join(root.as_str(), "session.json")
}

/// Recent-catalogs list under the data root.
pub fn recent_catalogs_path() -> (r: String)
    ensures
        exists|root: Seq<char>| r@ == joined_path(root, "recent.txt"@),
{
    let root = app_data_root();
    path_join(root.as_str(), "recent.txt")
}

/// Addon configuration file inside an addon's directory.
pub fn addon_config_path(addon_dir: &str) -> (r: String)
    ensures
        r@ == joined_path(addon_dir@, "config.json"@),
{
    path_join(addon_dir, "config.json")
}

/// Case-fold a path key on case-insensitive filesystems (macOS, Windows);
/// leave it as it is where case is significant.
pub fn fold_case(s: &str, case_insensitive_fs: bool) -> (r: String)
    ensures
        r@ == if case_insensitive_fs {
            lowercase(s@)
        } else {
            s@
        },
{
    if case_insensitive_fs {
        to_lowercase(s)
    } else {
        String::from_str(s)
    }
}

/// The SQL `LIKE` pattern matching every path strictly below `root`.
pub open spec fn descendant_pattern(root: Seq<char>, sep: char) -> Seq<char> {
    trim_end_char(root, sep).push(sep).push('%')
}

/// `LIKE` pattern for the descendants of a folder: the folder without
/// trailing separators, a separator, and `%`.
pub fn descendant_like_prefix(root_folder: &str) -> (r: String)
    ensures
        (exists|sep: char| (sep == '/' || sep == '\\') && r@ == descendant_pattern(root_folder@, sep)),
{
    let sep = main_separator();
    descendant_like_prefix_with(root_folder, sep)
}

/// `LIKE` pattern for the descendants of a folder whose paths use `sep`.
pub fn descendant_like_prefix_with(root_folder: &str, sep: char) -> (r: String)
    ensures
        r@ == descendant_pattern(root_folder@, sep),
{
    let v = chars_of(root_folder);
    let mut t = trim_end_matches_char(&v, sep);
    t.push(sep);
    t.push('%');
    string_of(&t)
}

/// Whether `s` ends with `suffix`.
pub open spec fn ends_with(s: Seq<char>, suffix: Seq<char>) -> bool {
    suffix.len() <= s.len() && s.subrange(s.len() - suffix.len(), s.len() as int) == suffix
}

/// Whether a folder name is a catalog bundle (`<name>.isfcatalog`); folder
/// scans never descend into one.
pub fn is_catalog_bundle(name: &str) -> (b: bool)
    ensures
        b == ends_with(name@, "."@ + CATALOG_EXT@),
{
    let v = chars_of(name);
    let mut suffix: Vec<char> = Vec::new();
    push_str(&mut suffix, ".");
    push_str(&mut suffix, CATALOG_EXT);
    if suffix.len() > v.len() {
        proof {
            assert(suffix@ == "."@ + CATALOG_EXT@);
        }
        return false;
    }
    let start = v.len() - suffix.len();
    let mut k: usize = 0;
    while k < suffix.len()
        invariant
            k <= suffix@.len(),
            start + suffix.len() == v.len(),
            v@ == name@,
            suffix@ == "."@ + CATALOG_EXT@,
            forall|i: int| 0 <= i < k ==> v@[start + i] == suffix@[i],
        decreases suffix@.len() - k,
    {
        if v[start + k] != suffix[k] {
            proof {
                assert(v@.subrange(start as int, v@.len() as int)[k as int] != suffix@[k as int]);
            }
            return false;
        }
        k = k + 1;
    }
    proof {
        assert(v@.subrange(start as int, v@.len() as int) =~= suffix@);
    }
    true
}

/// File extensions the catalog indexes, lower case.
pub open spec fn supported_extension_names() -> Seq<Seq<char>> {
    seq![
        "jpg"@, "jpeg"@, "png"@, "webp"@, "gif"@, "cr2"@, "cr3"@, "crw"@, "nef"@, "nrw"@,
        "arw"@, "raf"@, "orf"@, "rw2"@, "pef"@, "dng"@, "srw"@, "erf"@, "mrw"@,
    ]
}

/// RAW camera extensions, lower case.
pub open spec fn raw_extension_names() -> Seq<Seq<char>> {
    seq![
        "cr2"@, "cr3"@, "crw"@, "nef"@, "nrw"@, "arw"@, "raf"@, "orf"@, "rw2"@, "pef"@,
        "dng"@, "srw"@, "erf"@, "mrw"@,
    ]
}

fn supported_list() -> (v: Vec<&'static str>)
    ensures
        v@.map_values(|s: &str| s@) == supported_extension_names(),
{
    let v = vec![
        "jpg", "jpeg", "png", "webp", "gif", "cr2", "cr3", "crw", "nef", "nrw", "arw", "raf",
        "orf", "rw2", "pef", "dng", "srw", "erf", "mrw",
    ];
    proof {
        assert(v@.map_values(|s: &str| s@) =~= supported_extension_names());
    }
    v
}

fn raw_list() -> (v: Vec<&'static str>)
    ensures
        v@.map_values(|s: &str| s@) == raw_extension_names(),
{
    let v = vec![
        "cr2", "cr3", "crw", "nef", "nrw", "arw", "raf", "orf", "rw2", "pef", "dng", "srw",
        "erf", "mrw",
    ];
    proof {
        assert(v@.map_values(|s: &str| s@) =~= raw_extension_names());
    }
    v
}

fn listed(list: &Vec<&'static str>, s: &str) -> (b: bool)
    ensures
        b == list@.map_values(|x: &str| x@).contains(s@),
{
    let mut k: usize = 0;
    while k < list.len()
        invariant
            k <= list@.len(),
            forall|a: int| 0 <= a < k ==> list@[a]@ != s@,
        decreases list@.len() - k,
    {
        if str_eq(list[k], s) {
            proof {
                assert(list@.map_values(|x: &str| x@)[k as int] == s@);
            }
            return true;
        }
        k = k + 1;
    }
    proof {
        let names = list@.map_values(|x: &str| x@);
        assert forall|a: int| 0 <= a < names.len() implies #[trigger] names[a] != s@ by {
            assert(names[a] == list@[a]@);
        }
    }
    false
}

/// Whether files with this extension (leading dots ignored, any case) are
/// indexed.
pub fn is_supported_extension(ext: &str) -> (b: bool)
    ensures
        b == supported_extension_names().contains(
            lowercase(trim_start_char(ext@, '.')),
        ),
{
    let v = chars_of(ext);
    let t = trim_start_matches_char(&v, '.');
    let ts = string_of(&t);
    let lower = to_lowercase(ts.as_str());
    listed(&supported_list(), lower.as_str())
}

/// Whether the extension (any case) is a RAW camera format.
pub fn is_raw_extension(ext: &str) -> (b: bool)
    ensures
        b == raw_extension_names().contains(lowercase(ext@)),
        b ==> supported_extension_names().contains(lowercase(trim_start_char(ext@, '.'))),
{
    let lower = to_lowercase(ext);
    proof {
        if raw_extension_names().contains(lowercase(ext@)) {
            if ext@.len() > 0 && ext@[0] == '.' {
                let r = raw_extension_names();
                let k = choose|k: int| 0 <= k < r.len() && r[k] == lowercase(ext@);
                reveal_strlit("cr2");
                reveal_strlit("cr3");
                reveal_strlit("crw");
                reveal_strlit("nef");
                reveal_strlit("nrw");
                reveal_strlit("arw");
                reveal_strlit("raf");
                reveal_strlit("orf");
                reveal_strlit("rw2");
                reveal_strlit("pef");
                reveal_strlit("dng");
                reveal_strlit("srw");
                reveal_strlit("erf");
                reveal_strlit("mrw");
                assert(r[k][0] != '.');
            } else {
                lemma_raw_is_supported(ext@);
            }
        }
    }
    listed(&raw_list(), lower.as_str())
}

/// Every RAW extension is a supported one: an extension that does not start
/// with a dot and passes `is_raw_extension` passes `is_supported_extension`.
pub proof fn lemma_raw_is_supported(ext: Seq<char>)
    requires
        !(ext.len() > 0 && ext[0] == '.'),
        raw_extension_names().contains(lowercase(ext)),
    ensures
        supported_extension_names().contains(lowercase(trim_start_char(ext, '.'))),
{
    let l = lowercase(ext);
    let r = raw_extension_names();
    let a = supported_extension_names();
    let k = choose|k: int| 0 <= k < r.len() && r[k] == l;
    assert(r[k] == a[k + 5]);
    assert(trim_start_char(ext, '.') == ext);
}

/// SHA-256 digest of a byte string.
pub uninterp spec fn sha256(data: Seq<u8>) -> Seq<u8>;

/// `sha2::Sha256::digest`: the 32-byte SHA-256 digest of the input.
#[verifier::external_body]
fn sha256_digest(data: &[u8]) -> (r: Vec<u8>)
    ensures
        r@ == sha256(data@),
        r@.len() == 32,
{
    <sha2::Sha256 as sha2::Digest>::digest(data).to_vec()
}

/// Lower-case hex digit of a nibble.
pub open spec fn hex_digit(n: u8) -> char {
    if n < 10 {
        ((n + 48) as u8) as char
    } else {
        ((n + 87) as u8) as char
    }
}

/// Two lower-case hex digits per byte, in order.
pub open spec fn hex_lower(data: Seq<u8>) -> Seq<char>
    decreases data.len(),
{
    if data.len() == 0 {
        Seq::empty()
    } else {
        hex_lower(data.drop_last()).push(hex_digit(data.last() / 16)).push(
            hex_digit(data.last() % 16),
        )
    }
}

fn hex_char(n: u8) -> (c: char)
    requires
        n < 16,
    ensures
        c == hex_digit(n),
{
    if n < 10 {
        ((n + 48) as u8) as char
    } else {
        ((n + 87) as u8) as char
    }
}

/// The stable file id of an identity key: the lower-case hex SHA-256 of its
/// UTF-8 bytes.
pub fn compute_file_id(key: &str) -> (id: String)
    ensures
        id@ == hex_lower(sha256(key.spec_bytes())),
        id@.len() == 64,
{
    let digest = sha256_digest(key.as_bytes());
    let mut out: Vec<char> = Vec::new();
    let mut k: usize = 0;
    while k < digest.len()
        invariant
            k <= digest@.len(),
            out@ == hex_lower(digest@.take(k as int)),
        decreases digest@.len() - k,
    {
        let b = digest[k];
        out.push(hex_char(b / 16));
        out.push(hex_char(b % 16));
        proof {
            assert(digest@.take(k + 1).drop_last() =~= digest@.take(k as int));
        }
        k = k + 1;
    }
    proof {
        assert(digest@.take(digest@.len() as int) =~= digest@);
        lemma_hex_len(digest@);
    }
    string_of(&out)
}


/// The last session: the open catalog, its library folders and the last
/// selected sidebar item.
#[derive(Debug, Clone)]
pub struct Session {
    pub catalog_path: String,
    pub folders: Vec<String>,
    pub last_selected: Option<String>,
}

/// The user-facing form of a path: `path` itself when it is blank, otherwise
/// its canonical form (or `path` when it has none) without trailing
/// separators.
pub open spec fn display_form(path: Seq<char>, canonical: Option<Seq<char>>, sep: char) -> Seq<
    char,
> {
    if trim_spec(path).len() == 0 {
        path
    } else {
        trim_end_char(
            match canonical {
                Some(c) => c,
                None => path,
            },
            sep,
        )
    }
}

/// The value of an optional string.
pub open spec fn opt_text(o: Option<String>) -> Option<Seq<char>> {
    match o {
        Some(c) => Some(c@),
        None => None,
    }
}

/// The key form of a path: blank paths unchanged, otherwise the display form,
/// case-folded on case-insensitive filesystems.
pub open spec fn key_form(
    path: Seq<char>,
    canonical: Option<Seq<char>>,
    sep: char,
    case_insensitive_fs: bool,
) -> Seq<char> {
    if trim_spec(path).len() == 0 {
        path
    } else {
        let d = display_form(path, canonical, sep);
        if case_insensitive_fs {
            lowercase(d)
        } else {
            d
        }
    }
}

/// The user-facing form of `path` given its canonical form (`None` when the
/// path cannot be resolved): real casing kept, trailing separators removed.
pub fn display_path_from(path: &str, canonical: Option<String>) -> (r: String)
    ensures
        exists|sep: char|
            (sep == '/' || sep == '\\') && r@ == #[trigger] display_form(
                path@,
                opt_text(canonical),
                sep,
            ),
{
    let p = chars_of(path);
    let t = trim_chars(&p);
    if t.len() == 0 {
        let r = String::from_str(path);
        proof {
            assert(r@ == display_form(path@, opt_text(canonical), '/'));
        }
        return r;
    }
    let sep = main_separator();
    let full = match canonical {
        Some(c) => chars_of(c.as_str()),
        None => p,
    };
    let trimmed = trim_end_matches_char(&full, sep);
    let r = string_of(&trimmed);
    proof {
        assert(r@ == display_form(path@, opt_text(canonical), sep));
    }
    r
}

/// The key form of a path: blank paths unchanged, otherwise the display form
/// case-folded on case-insensitive filesystems.
pub fn normalize_path(path: &str, canonical: Option<String>, case_insensitive_fs: bool) -> (r: String)
    ensures
        exists|sep: char|
            (sep == '/' || sep == '\\') && r@ == #[trigger] key_form(
                path@,
                opt_text(canonical),
                sep,
                case_insensitive_fs,
            ),
{
    let p = chars_of(path);
    let t = trim_chars(&p);
    if t.len() == 0 {
        let r = String::from_str(path);
        proof {
            assert(r@ == key_form(path@, opt_text(canonical), '/', case_insensitive_fs));
        }
        return r;
    }
    let ghost cv = opt_text(canonical);
    let d = display_path_from(path, canonical);
    let r = fold_case(d.as_str(), case_insensitive_fs);
    proof {
        let sep = choose|sep: char| (sep == '/' || sep == '\\') && d@ == #[trigger] display_form(path@, cv, sep);
        assert(r@ == key_form(path@, cv, sep, case_insensitive_fs));
    }
    r
}

/// The paths other than `c`.
pub open spec fn other_than(c: Seq<char>) -> spec_fn(Seq<char>) -> bool {
    |p: Seq<char>| p != c
}

/// The recent-catalogs list after opening `catalog_path`: it first, then the
/// other entries of `existing` in order, at most five in all.
pub open spec fn recent_after_open(existing: Seq<Seq<char>>, catalog_path: Seq<char>) -> Seq<
    Seq<char>,
> {
    let all = seq![catalog_path] + existing.filter(other_than(catalog_path));
    if all.len() > 5 {
        all.take(5)
    } else {
        all
    }
}

/// The recent-catalogs list after opening `catalog_path` (most recent first,
/// no duplicate of it, at most five).
pub fn recent_catalogs_updated(existing: &Vec<String>, catalog_path: &str) -> (r: Vec<String>)
    ensures
        strings_view(r@) == recent_after_open(strings_view(existing@), catalog_path@),
{
    let ghost ev = strings_view(existing@);
    let ghost pred = |p: Seq<char>| p != catalog_path@;
    let cp = chars_of(catalog_path);
    let mut out: Vec<String> = Vec::new();
    out.push(String::from_str(catalog_path));
    proof {
        assert(strings_view(out@) =~= seq![catalog_path@] + ev.take(0).filter(pred)) by {
            reveal(Seq::filter);
        }
    }
    let mut k: usize = 0;
    while k < existing.len()
        invariant
            ev == strings_view(existing@),
            pred == (|p: Seq<char>| p != catalog_path@),
            cp@ == catalog_path@,
            k <= existing@.len(),
            strings_view(out@) == seq![catalog_path@] + ev.take(k as int).filter(pred),
        decreases existing@.len() - k,
    {
        let e = chars_of(existing[k].as_str());
        proof {
            reveal(Seq::filter);
            let tk = ev.take(k + 1);
            assert(tk.drop_last() =~= ev.take(k as int));
            assert(tk.last() == ev[k as int]);
            assert(tk.filter(pred) == if pred(tk.last()) {
                tk.drop_last().filter(pred).push(tk.last())
            } else {
                tk.drop_last().filter(pred)
            });
        }
        if !chars_eq(&e, &cp) {
            let ghost before = out@;
            let c = existing[k].clone();
            out.push(c);
            proof {
                assert(strings_view(out@) =~= strings_view(before).push(c@));
            }
        }
        k = k + 1;
    }
    proof {
        assert(ev.take(existing@.len() as int) =~= ev);
    }
    if out.len() > 5 {
        let ghost before = out@;
        out.truncate(5);
        proof {
            assert(strings_view(out@) =~= strings_view(before).take(5));
        }
    }
    out
}


/// After opening a catalog, the recent list starts with it, holds it once,
/// and keeps at most five entries.
pub proof fn lemma_recent_list_shape(existing: Seq<Seq<char>>, catalog_path: Seq<char>)
    ensures
        recent_after_open(existing, catalog_path).len() >= 1,
        recent_after_open(existing, catalog_path).len() <= 5,
        recent_after_open(existing, catalog_path)[0] == catalog_path,
        forall|i: int|
            1 <= i < recent_after_open(existing, catalog_path).len() ==> #[trigger] recent_after_open(
                existing,
                catalog_path,
            )[i] != catalog_path,
{
    let pred = other_than(catalog_path);
    let f = existing.filter(pred);
    let all = seq![catalog_path] + f;
    assert forall|i: int| 0 <= i < f.len() implies #[trigger] f[i] != catalog_path by {
        existing.lemma_filter_pred(pred, i);
    }
    assert forall|i: int| 1 <= i < all.len() implies #[trigger] all[i] != catalog_path by {
        assert(all[i] == f[i - 1]);
    }
}

proof fn lemma_filter_drops_head(s: Seq<Seq<char>>, pred: spec_fn(Seq<char>) -> bool)
    requires
        s.len() > 0,
        !pred(s[0]),
        forall|i: int| 1 <= i < s.len() ==> pred(#[trigger] s[i]),
    ensures
        s.filter(pred) == s.drop_first(),
    decreases s.len(),
{
    reveal(Seq::filter);
    let d = s.drop_last();
    if s.len() == 1 {
        assert(d.filter(pred) =~= Seq::<Seq<char>>::empty());
        assert(s.drop_first() =~= Seq::<Seq<char>>::empty());
    } else {
        assert forall|i: int| 1 <= i < d.len() implies pred(#[trigger] d[i]) by {
            assert(d[i] == s[i]);
        }
        lemma_filter_drops_head(d, pred);
        assert(pred(s.last()));
        assert(s.drop_first() =~= d.drop_first().push(s.last()));
    }
}

/// Opening the same catalog twice in a row leaves the recent list as the
/// first opening left it.
pub proof fn lemma_recent_list_idempotent(existing: Seq<Seq<char>>, catalog_path: Seq<char>)
    ensures
        recent_after_open(recent_after_open(existing, catalog_path), catalog_path) == recent_after_open(
            existing,
            catalog_path,
        ),
{
    let r = recent_after_open(existing, catalog_path);
    lemma_recent_list_shape(existing, catalog_path);
    let pred = other_than(catalog_path);
    assert forall|i: int| 1 <= i < r.len() implies pred(#[trigger] r[i]) by {}
    lemma_filter_drops_head(r, pred);
    let all = seq![catalog_path] + r.filter(pred);
    assert(all =~= r);
    assert(all.len() <= 5);
    assert(recent_after_open(r, catalog_path) == all);
}

proof fn lemma_hex_len(d: Seq<u8>)
    ensures
        hex_lower(d).len() == 2 * d.len(),
    decreases d.len(),
{
    if d.len() > 0 {
        lemma_hex_len(d.drop_last());
    }
}

} // verus!
