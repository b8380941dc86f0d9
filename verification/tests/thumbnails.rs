use isomfolio_core::paths::{is_raw_extension, thumbnail_cache_path};
use isomfolio_core::thumbnail_queue::{
    enqueue_message, prioritize_message, retry_message, CoordinatorAction, PoolState,
    ThumbnailMsg, WorkerStep, RETRY_PRIORITY,
};

#[test]
fn cache_path_format() {
    let path = thumbnail_cache_path("/catalog", "abc123");
    assert!(path.contains("abc123.jpg"));
    assert!(path.contains("thumbnails"));
}

#[test]
fn raw_extensions_ignore_case() {
    assert!(is_raw_extension("CR2"));
    assert!(is_raw_extension("dng"));
    assert!(!is_raw_extension("jpg"));
}

fn enq(s: &mut PoolState, ids: &[&str]) {
    for (i, id) in ids.iter().enumerate() {
        s.enqueue((*id).to_string(), format!("/{id}.jpg"), i as i32, 0);
    }
}

fn drain(s: &mut PoolState) -> Vec<String> {
    let mut out = Vec::new();
    while let Some((id, _, _)) = s.dequeue() {
        out.push(id);
    }
    out
}

fn ids(v: &[&str]) -> Vec<String> {
    v.iter().map(|s| s.to_string()).collect()
}

#[test]
fn promotes_subset_to_front_in_order() {
    let mut s = PoolState::new();
    enq(&mut s, &["a", "b", "c", "d"]);
    s.prioritize(&ids(&["c", "d"]));
    assert_eq!(drain(&mut s), ids(&["c", "d", "a", "b"]));
}

#[test]
fn newest_view_sorts_ahead_of_earlier_promotion() {
    let mut s = PoolState::new();
    enq(&mut s, &["a", "b", "c", "d"]);
    s.prioritize(&ids(&["a", "b"]));
    s.prioritize(&ids(&["c", "d"]));
    assert_eq!(drain(&mut s), ids(&["c", "d", "a", "b"]));
}

#[test]
fn unknown_ids_are_ignored() {
    let mut s = PoolState::new();
    enq(&mut s, &["a", "b"]);
    s.prioritize(&ids(&["zzz", "b"]));
    assert_eq!(drain(&mut s), ids(&["b", "a"]));
}

#[test]
fn later_enqueue_stays_behind_promoted_band() {
    let mut s = PoolState::new();
    enq(&mut s, &["a", "b"]);
    s.prioritize(&ids(&["b"]));
    s.enqueue("e".into(), "/e.jpg".into(), 0, 0);
    assert_eq!(drain(&mut s), ids(&["b", "a", "e"]));
}

#[test]
fn duplicate_and_in_flight_ids_are_not_queued_twice() {
    let mut s = PoolState::new();
    enq(&mut s, &["a", "a"]);
    assert_eq!(s.queue_len(), 1);
    match s.next_step() {
        WorkerStep::Run(id, path, retry) => {
            assert_eq!((id.as_str(), path.as_str(), retry), ("a", "/a.jpg", 0));
        }
        other => panic!("expected a job, got {other:?}"),
    }
    // "a" is in flight: a new request for it is dropped.
    s.enqueue("a".into(), "/a.jpg".into(), 0, 0);
    assert_eq!(s.queue_len(), 0);
    assert!(matches!(s.next_step(), WorkerStep::Wait));
    s.finish_in_flight(&"a".to_string());
    s.enqueue("a".into(), "/a.jpg".into(), 0, 0);
    assert_eq!(s.queue_len(), 1);
}

#[test]
fn coordinator_applies_requests() {
    let mut s = PoolState::new();
    assert_eq!(s.apply(enqueue_message("x", "/x.jpg", 3)), CoordinatorAction::WakeOne);
    assert_eq!(s.apply(enqueue_message("y", "/y.jpg", 1)), CoordinatorAction::WakeOne);
    let m = prioritize_message(&ids(&["x"])).unwrap();
    assert_eq!(s.apply(m), CoordinatorAction::Continue);
    assert_eq!(s.apply(ThumbnailMsg::CancelAll), CoordinatorAction::Continue);
    assert_eq!(s.queue_len(), 0);
    assert_eq!(s.apply(ThumbnailMsg::Shutdown), CoordinatorAction::StopAndWakeAll);
    assert!(matches!(s.next_step(), WorkerStep::Stop));
}

#[test]
fn messages_carry_their_fields() {
    assert!(prioritize_message(&[]).is_none());
    match enqueue_message("id", "/p.jpg", 7) {
        ThumbnailMsg::Enqueue { file_id, file_path, priority, retry_count } => {
            assert_eq!((file_id.as_str(), file_path.as_str(), priority, retry_count), ("id", "/p.jpg", 7, 0));
        }
        other => panic!("unexpected {other:?}"),
    }
    match retry_message("id".into(), "/p.jpg".into(), 0) {
        Some(ThumbnailMsg::Enqueue { priority, retry_count, .. }) => {
            assert_eq!((priority, retry_count), (RETRY_PRIORITY, 1));
        }
        other => panic!("unexpected {other:?}"),
    }
    assert!(retry_message("id".into(), "/p.jpg".into(), 1).is_none());
}

// Promoted jobs come first in the order they were asked for, numbered just
// below the smallest priority left; the others keep theirs.
#[test]
fn promotion_puts_requested_jobs_first_in_request_order() {
    let mut s = PoolState::new();
    s.enqueue("a".into(), "/a.jpg".into(), 5, 0);
    s.enqueue("b".into(), "/b.jpg".into(), 6, 0);
    s.enqueue("c".into(), "/c.jpg".into(), 7, 0);
    s.enqueue("d".into(), "/d.jpg".into(), 8, 0);
    s.prioritize(&["d".to_string(), "b".to_string(), "zz".to_string()]);
    assert_eq!(drain(&mut s), vec!["d", "b", "a", "c"]);
}

// A job lands after every job of equal or smaller priority.
#[test]
fn enqueue_is_first_come_first_served_within_a_priority() {
    let mut s = PoolState::new();
    s.enqueue("x".into(), "/x.jpg".into(), 1, 0);
    s.enqueue("y".into(), "/y.jpg".into(), 0, 0);
    s.enqueue("z".into(), "/z.jpg".into(), 1, 0);
    s.enqueue("w".into(), "/w.jpg".into(), 2, 0);
    assert_eq!(drain(&mut s), vec!["y", "x", "z", "w"]);
}

#[test]
fn raw_extensions_are_supported() {
    for ext in ["cr2", "CR3", "Nef", "dng", "mrw"] {
        assert!(is_raw_extension(ext));
        assert!(isomfolio_core::paths::is_supported_extension(ext));
    }
    assert!(!is_raw_extension("png"));
}
