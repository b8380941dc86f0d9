use isomfolio_core::events::FileEvent;
use isomfolio_core::sync_plan::{files_to_orphan, IndexedFile, SyncTally, SYNC_BATCH_SIZE};
use isomfolio_core::watch::{classify_event, Debouncer, WatchKind, DEBOUNCE_MS, IDLE_WAIT_MS};

fn s(x: &str) -> Option<String> {
    Some(x.to_string())
}

fn path_of(e: &FileEvent) -> String {
    match e {
        FileEvent::Created(p) => format!("C:{p}"),
        FileEvent::Deleted(p) => format!("D:{p}"),
        FileEvent::Modified(p) => format!("M:{p}"),
        FileEvent::Renamed { old_path, new_path } => format!("R:{old_path}->{new_path}"),
        _ => "other".to_string(),
    }
}

#[test]
fn classify_maps_kinds_of_supported_files() {
    let e = classify_event(WatchKind::Created, s("JPG"), s("/p/a.jpg"), None).unwrap();
    assert_eq!(path_of(&e), "C:/p/a.jpg");
    let e = classify_event(WatchKind::Removed, s("nef"), s("/p/b.nef"), None).unwrap();
    assert_eq!(path_of(&e), "D:/p/b.nef");
    let e = classify_event(WatchKind::Modified, s("png"), s("/p/c.png"), None).unwrap();
    assert_eq!(path_of(&e), "M:/p/c.png");
    let e = classify_event(WatchKind::RenamedBoth, s("jpg"), s("/p/a.jpg"), s("/p/z.jpg")).unwrap();
    assert_eq!(path_of(&e), "R:/p/a.jpg->/p/z.jpg");
}

#[test]
fn classify_drops_unsupported_and_incomplete() {
    assert!(classify_event(WatchKind::Created, s("txt"), s("/p/a.txt"), None).is_none());
    assert!(classify_event(WatchKind::Created, None, s("/p/noext"), None).is_none());
    assert!(classify_event(WatchKind::Created, s("jpg"), None, None).is_none());
    assert!(classify_event(WatchKind::RenamedBoth, s("jpg"), s("/p/a.jpg"), None).is_none());
    assert!(classify_event(WatchKind::Ignored, s("jpg"), s("/p/a.jpg"), None).is_none());
}

#[test]
fn debounce_keeps_latest_event_per_path() {
    let mut d = Debouncer::new();
    assert!(d.insert(FileEvent::Created("/a.jpg".into()), 0));
    assert!(d.insert(FileEvent::Modified("/b.jpg".into()), 10));
    assert!(d.insert(FileEvent::Modified("/a.jpg".into()), 20));
    assert_eq!(d.entries.len(), 2);
    assert_eq!(d.entries[0].key, "/b.jpg");
    assert_eq!(path_of(&d.entries[1].event), "M:/a.jpg");
    let rename = FileEvent::Renamed { old_path: "/x.jpg".into(), new_path: "/b.jpg".into() };
    assert!(d.insert(rename, 30));
    assert_eq!(d.entries.len(), 2);
    assert_eq!(d.entries[1].key, "/b.jpg");
    assert!(!d.insert(FileEvent::FoldersDiscovered, 40));
    assert_eq!(d.entries.len(), 2);
}

#[test]
fn debounce_waits_and_releases_quiet_paths() {
    let mut d = Debouncer::new();
    assert_eq!(d.wait_ms(0), IDLE_WAIT_MS);
    d.insert(FileEvent::Created("/a.jpg".into()), 100);
    d.insert(FileEvent::Created("/b.jpg".into()), 200);
    assert_eq!(d.wait_ms(300), DEBOUNCE_MS - 200);
    assert!(d.take_ready(300).is_empty());
    let out = d.take_ready(350);
    assert_eq!(out.len(), 1);
    assert_eq!(path_of(&out[0]), "C:/a.jpg");
    assert_eq!(d.entries.len(), 1);
    assert_eq!(d.wait_ms(350), 100);
    assert_eq!(d.wait_ms(50), DEBOUNCE_MS);
    let out = d.take_ready(450);
    assert_eq!(path_of(&out[0]), "C:/b.jpg");
    assert!(d.entries.is_empty());
}

#[test]
fn sync_tally_flushes_full_batches() {
    let mut t = SyncTally::new();
    let mut flushes = 0;
    for i in 0..(SYNC_BATCH_SIZE + 3) {
        let id = format!("id{i}");
        if t.record(&id, i % 2 == 0) {
            let p = t.flushed(&"Photos".to_string());
            assert_eq!(p.total_found, SYNC_BATCH_SIZE);
            assert_eq!(p.inserted, SYNC_BATCH_SIZE);
            assert_eq!(p.folder_name, "Photos");
            flushes += 1;
        }
    }
    assert_eq!(flushes, 1);
    assert_eq!(t.batch_len, 3);
    let p = t.flushed(&"Photos".to_string());
    assert_eq!(p.total_found, SYNC_BATCH_SIZE + 3);
    let r = t.finish();
    assert_eq!(r.total_count, SYNC_BATCH_SIZE + 3);
    assert_eq!(r.new_file_ids.len(), (SYNC_BATCH_SIZE + 3 + 1) / 2);
    assert_eq!(r.new_file_ids[1], "id2");
}

#[test]
fn orphans_are_unseen_and_not_yet_missing() {
    let f = |p: &str, id: &str, o: bool| IndexedFile { path: p.into(), id: id.into(), is_orphaned: o };
    let indexed = vec![f("/a.jpg", "1", false), f("/b.jpg", "2", false), f("/c.jpg", "3", true)];
    let seen = vec!["/b.jpg".to_string()];
    assert_eq!(files_to_orphan(&indexed, &seen, true), vec!["1".to_string()]);
    assert!(files_to_orphan(&indexed, &seen, false).is_empty());
    assert!(files_to_orphan(&indexed, &vec![], false).is_empty());
}
