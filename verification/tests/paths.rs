use isomfolio_core::paths::{
    addon_config_path, catalog_dir_path, is_catalog_bundle, compute_file_id, db_path, descendant_like_prefix,
    display_path_from, face_crop_dir, face_crop_path, fold_case, is_supported_extension,
    normalize_path, recent_catalogs_updated, thumbnail_cache_dir, CATALOG_EXT,
};

const SEP: char = std::path::MAIN_SEPARATOR;

fn j(parts: &[&str]) -> String {
    parts.join(&SEP.to_string())
}

#[test]
fn catalog_layout_paths() {
    assert_eq!(db_path("/cat"), j(&["/cat", "catalog.db"]));
    assert_eq!(thumbnail_cache_dir("/cat"), j(&["/cat", "thumbnails"]));
    assert_eq!(face_crop_dir("/cat"), j(&["/cat", "face-crops"]));
    assert_eq!(face_crop_path("/cat", "p1"), j(&["/cat", "face-crops", "p1.jpg"]));
    assert_eq!(catalog_dir_path("/home", "Trip"), j(&["/home", &format!("Trip.{CATALOG_EXT}")]));
    assert_eq!(addon_config_path("/addons/a"), j(&["/addons/a", "config.json"]));
}

#[test]
fn supported_extensions_ignore_dots_and_case() {
    assert!(is_supported_extension("jpg"));
    assert!(is_supported_extension(".JPEG"));
    assert!(is_supported_extension("..Nef"));
    assert!(!is_supported_extension("txt"));
    assert!(!is_supported_extension(""));
}

#[test]
fn file_ids_are_hex_sha256_of_the_key() {
    assert_eq!(
        compute_file_id("abc"),
        "ba7816bf8f01cfea414140de5dae2223b00361a396177a9cb410ff61f20015ad"
    );
    assert_eq!(compute_file_id("abc").len(), 64);
    assert_ne!(compute_file_id("/a/b.jpg"), compute_file_id("/a/B.jpg"));
}

#[test]
fn case_folding_follows_the_filesystem() {
    assert_eq!(fold_case("/Users/Me", true), "/users/me");
    assert_eq!(fold_case("/Users/Me", false), "/Users/Me");
}

#[test]
fn descendant_pattern_drops_trailing_separators() {
    let expected = format!("{}{SEP}%", "/photos");
    assert_eq!(descendant_like_prefix(&format!("/photos{SEP}{SEP}")), expected);
    assert_eq!(descendant_like_prefix("/photos"), expected);
}

#[test]
fn display_and_key_forms() {
    assert_eq!(display_path_from("  ", None), "  ");
    assert_eq!(display_path_from("/x", Some(format!("/Real/X{SEP}"))), "/Real/X");
    assert_eq!(display_path_from("/x", None), "/x");
    assert_eq!(normalize_path("/x", Some("/Real/X".into()), true), "/real/x");
    assert_eq!(normalize_path("/x", Some("/Real/X".into()), false), "/Real/X");
    assert_eq!(normalize_path("", None, true), "");
}

#[test]
fn recent_list_puts_the_opened_catalog_first() {
    let existing: Vec<String> = ["a", "b", "c", "b", "d", "e", "f"].iter().map(|s| s.to_string()).collect();
    assert_eq!(recent_catalogs_updated(&existing, "b"), vec!["b", "a", "c", "d", "e"]);
    assert_eq!(recent_catalogs_updated(&Vec::new(), "z"), vec!["z"]);
}

#[test]
fn catalog_bundles_are_recognised_by_suffix() {
    assert!(is_catalog_bundle("MyPhotos.isfcatalog"));
    assert!(is_catalog_bundle(".isfcatalog"));
    assert!(!is_catalog_bundle("isfcatalog"));
    assert!(!is_catalog_bundle("MyPhotos.isfcatalog.bak"));
    assert!(!is_catalog_bundle("photos"));
}
