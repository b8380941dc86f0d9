use isomfolio_core::models::{FlagSelection, RatingFilter, SearchQuery, SortField, TagMatch};
use isomfolio_core::query_sql::{
    search_sql_with_sep, sort_column, text_search_input, SearchSql, SqlParam,
};

const COLS: &str = "f.id, f.filename";

fn build(album: Option<&String>, q: &SearchQuery, ids: Option<&Vec<String>>) -> SearchSql {
    search_sql_with_sep(album, q, ids, COLS, 1_000_000, '/')
}

fn texts(params: &[SqlParam]) -> Vec<String> {
    params
        .iter()
        .map(|p| match p {
            SqlParam::Text(s) => format!("T:{s}"),
            SqlParam::Int(v) => format!("I:{v}"),
        })
        .collect()
}

#[test]
fn default_query_lists_live_files_by_name() {
    let r = build(None, &SearchQuery::default(), None);
    assert_eq!(
        r.sql,
        "SELECT f.id, f.filename FROM files f WHERE f.is_orphaned = 0 AND f.is_deleted = 0 \
         ORDER BY f.filename COLLATE NOCASE ASC, f.id ASC"
    );
    assert!(r.params.is_empty());
}

#[test]
fn deleted_view_asks_for_deleted_files_only() {
    let q = SearchQuery { only_deleted: true, ..SearchQuery::default() };
    let r = build(None, &q, None);
    assert!(r.sql.contains(" AND f.is_deleted = 1"));
    assert!(!r.sql.contains("f.is_deleted = 0"));
}

#[test]
fn album_search_binds_album_first() {
    let album = "album-7".to_string();
    let q = SearchQuery {
        folder_path: Some("/photos".into()),
        sort_by: SortField::Date,
        sort_asc: false,
        ..SearchQuery::default()
    };
    let r = build(Some(&album), &q, None);
    assert_eq!(
        r.sql,
        "SELECT f.id, f.filename FROM files f JOIN album_files af ON f.id = af.file_id \
         WHERE af.album_id = ?1 AND f.is_orphaned = 0 AND f.is_deleted = 0 \
         ORDER BY f.exif_date_unix DESC NULLS LAST, f.id ASC"
    );
    assert_eq!(texts(&r.params), vec!["T:album-7"]);
}

#[test]
fn tags_match_themselves_or_descendants() {
    let q = SearchQuery {
        tags: vec!["a_b".into(), "c%".into()],
        tag_match: TagMatch::Any,
        exclude_tags: vec!["x\\y".into()],
        ..SearchQuery::default()
    };
    let r = build(None, &q, None);
    assert!(r.sql.contains(
        " AND EXISTS (SELECT 1 FROM tags tg WHERE tg.file_id = f.id AND \
         ((tg.tag = ?1 OR tg.tag LIKE ?2 ESCAPE '\\') OR (tg.tag = ?3 OR tg.tag LIKE ?4 ESCAPE '\\')))"
    ));
    assert!(r.sql.contains(
        " AND NOT EXISTS (SELECT 1 FROM tags tg WHERE tg.file_id = f.id AND \
         ((tg.tag = ?5 OR tg.tag LIKE ?6 ESCAPE '\\')))"
    ));
    assert_eq!(
        texts(&r.params),
        vec!["T:a_b", "T:a\\_b/%", "T:c%", "T:c\\%/%", "T:x\\y", "T:x\\\\y/%"]
    );
}

#[test]
fn all_tags_need_one_exists_each() {
    let q = SearchQuery { tags: vec!["p".into(), "q".into()], ..SearchQuery::default() };
    let r = build(None, &q, None);
    assert_eq!(r.sql.matches(" AND EXISTS (SELECT 1 FROM tags").count(), 2);
    assert_eq!(texts(&r.params), vec!["T:p", "T:p/%", "T:q", "T:q/%"]);
}

#[test]
fn placeholders_follow_parameter_order() {
    let ids = vec!["id1".to_string(), "id2".to_string()];
    let q = SearchQuery {
        import_batch: Some(4),
        collapse_bursts: true,
        expanded_bursts: vec!["b1".into()],
        folder_path: Some("/lib/".into()),
        folder_recursive: true,
        extensions: vec![".JPG".into(), "Png".into()],
        date_from: Some(10),
        date_to: Some(20),
        flags: FlagSelection { pick: true, unflagged: false, reject: true },
        rating: RatingFilter::AtLeast(3),
        has_faces: Some(false),
        has_location: Some(true),
        person_cluster: Some("p1".into()),
        added_within_days: Some(2),
        camera_model: Some("X100".into()),
        color_label: Some("Red".into()),
        sort_by: SortField::Size,
        ..SearchQuery::default()
    };
    let r = build(None, &q, Some(&ids));
    assert!(r.sql.starts_with(
        "SELECT f.id, f.filename FROM files f LEFT JOIN metadata m ON f.id = m.file_id WHERE"
    ));
    assert!(r.sql.contains(" AND f.import_batch_id = ?1"));
    assert!(r.sql.contains(" OR f.burst_id IN (?2))"));
    assert!(r.sql.contains(" AND f.id IN (?3,?4)"));
    assert!(r.sql.contains(" AND (f.folder = ?5 OR f.folder LIKE ?6)"));
    assert!(r.sql.contains(" AND f.extension IN (?7,?8)"));
    assert!(r.sql.contains(" AND f.modified_time >= ?9 AND f.modified_time <= ?10"));
    assert!(r.sql.contains(" AND f.flag IN (?11,?12)"));
    assert!(r.sql.contains(" AND COALESCE(m.rating, 0) >= ?13"));
    assert!(r.sql.contains(" AND NOT EXISTS (SELECT 1 FROM face_clusters fc WHERE fc.file_id = f.id)"));
    assert!(r.sql.contains(" AND f.gps_lat IS NOT NULL"));
    assert!(r.sql.contains("cluster_id = ?14)"));
    assert!(r.sql.contains(" AND f.created_at_unix >= ?15"));
    assert!(r.sql.contains("camera_model = ?16)"));
    assert!(r.sql.contains("label = ?17)"));
    assert!(r.sql.ends_with(" ORDER BY f.size ASC, f.id ASC"));
    assert_eq!(
        texts(&r.params),
        vec![
            "I:4", "T:b1", "T:id1", "T:id2", "T:/lib/", "T:/lib/%", "T:jpg", "T:png", "I:10",
            "I:20", "I:1", "I:-1", "I:3", "T:p1", "I:827200", "T:X100", "T:Red",
        ]
    );
}

#[test]
fn blank_folder_and_album_folder_are_ignored() {
    let q = SearchQuery { folder_path: Some("   ".into()), ..SearchQuery::default() };
    assert!(!build(None, &q, None).sql.contains("f.folder"));
    let album = "a".to_string();
    let q = SearchQuery { folder_path: Some("/x".into()), ..SearchQuery::default() };
    assert!(!build(Some(&album), &q, None).sql.contains("f.folder"));
    let q = SearchQuery { folder_path: Some("/x".into()), ..SearchQuery::default() };
    let r = build(None, &q, None);
    assert!(r.sql.contains(" AND f.folder = ?1"));
}

#[test]
fn unrated_and_at_most_treat_missing_as_zero() {
    let q = SearchQuery { rating: RatingFilter::Unrated, ..SearchQuery::default() };
    let r = build(None, &q, None);
    assert!(r.sql.contains(" AND COALESCE(m.rating, 0) = ?1"));
    assert_eq!(texts(&r.params), vec!["I:0"]);
    let q = SearchQuery { rating: RatingFilter::AtMost(2), ..SearchQuery::default() };
    let r = build(None, &q, None);
    assert!(r.sql.contains(" AND COALESCE(m.rating, 0) <= ?1"));
}

#[test]
fn every_or_no_flag_selected_means_no_flag_filter() {
    let all = FlagSelection { pick: true, unflagged: true, reject: true };
    let q = SearchQuery { flags: all, ..SearchQuery::default() };
    assert!(!build(None, &q, None).sql.contains("f.flag"));
    let only = FlagSelection { pick: false, unflagged: true, reject: false };
    let q = SearchQuery { flags: only, ..SearchQuery::default() };
    let r = build(None, &q, None);
    assert!(r.sql.contains(" AND f.flag IN (?1)"));
    assert_eq!(texts(&r.params), vec!["I:0"]);
}

#[test]
fn include_orphaned_drops_the_orphan_filter() {
    let q = SearchQuery { include_orphaned: true, ..SearchQuery::default() };
    let r = build(None, &q, None);
    assert!(r.sql.contains(" WHERE 1=1 AND f.is_deleted = 0"));
}

#[test]
fn sort_columns() {
    assert_eq!(sort_column(SortField::Name), "f.filename");
    assert_eq!(sort_column(SortField::Date), "f.exif_date_unix");
    assert_eq!(sort_column(SortField::Size), "f.size");
    assert_eq!(sort_column(SortField::Ext), "f.extension");
}

#[test]
fn text_search_runs_only_for_non_blank_text() {
    let q = SearchQuery { text: Some("  ".into()), ..SearchQuery::default() };
    assert_eq!(text_search_input(&q), None);
    let q = SearchQuery { text: Some(" sunset ".into()), ..SearchQuery::default() };
    assert_eq!(text_search_input(&q), Some(" sunset ".to_string()));
    assert_eq!(text_search_input(&SearchQuery::default()), None);
}
