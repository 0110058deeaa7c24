use matrixdir::matrixroomdir::FileScan;
use matrixdir::watcher::{
    emit_events_from_follower, CollectingHandler, MatrixDirWatcher, NotifiedPath, NotifyKind,
    PathData,
};
use matrixdir::{FileMessageIterator, RoomScan, StoreError};

fn scan(name: &str, content: &[u8]) -> FileScan {
    FileScan { name: name.to_string(), content: content.to_vec() }
}

fn room(name: &str, files: Vec<FileScan>) -> RoomScan {
    RoomScan { name: name.to_string(), files }
}

fn parts(ps: &[&str]) -> Vec<String> {
    ps.iter().map(|p| p.to_string()).collect()
}

fn path(ps: &[&str], data: PathData) -> NotifiedPath {
    NotifiedPath { parts: parts(ps), data }
}

#[test]
fn bootstrap_replays_existing_lines_in_file_order() {
    let w = MatrixDirWatcher::new(
        vec![room("default", vec![scan("100.jsonl", b"one\ntwo\n")])],
        CollectingHandler::new(),
    )
    .unwrap();
    assert_eq!(w.handler.events, vec!["one".to_string(), "two".to_string()]);
}

#[test]
fn bootstrap_walks_files_in_ascending_start_order() {
    let w = MatrixDirWatcher::new(
        vec![room(
            "default",
            vec![scan("200.jsonl", b"later\n"), scan("100.jsonl", b"earlier\n")],
        )],
        CollectingHandler::new(),
    )
    .unwrap();
    assert_eq!(w.handler.events, vec!["earlier".to_string(), "later".to_string()]);
}

#[test]
fn modify_on_a_tracked_file_delivers_exactly_the_new_line() {
    let mut w = MatrixDirWatcher::new(
        vec![room("default", vec![scan("100.jsonl", b"one\ntwo\n")])],
        CollectingHandler::new(),
    )
    .unwrap();
    assert_eq!(w.tracked_offset("default", "100.jsonl"), Some(8));
    w.handle_event(
        NotifyKind::ModifyData,
        vec![path(&["default", "100.jsonl"], PathData::Appended(b"three\n".to_vec()))],
    )
    .unwrap();
    assert_eq!(
        w.handler.events,
        vec!["one".to_string(), "two".to_string(), "three".to_string()]
    );
    assert_eq!(w.tracked_offset("default", "100.jsonl"), Some(14));
}

#[test]
fn modify_on_an_untracked_path_is_ignored() {
    let mut w = MatrixDirWatcher::new(Vec::new(), CollectingHandler::new()).unwrap();
    w.handle_event(
        NotifyKind::ModifyData,
        vec![path(&["nowhere", "1.jsonl"], PathData::Appended(b"x\n".to_vec()))],
    )
    .unwrap();
    assert_eq!(w.handler.events.len(), 0);
}

#[test]
fn new_room_delivers_once_whatever_the_notification_order() {
    // directory-created first, then file-created, then data-modified
    let mut w = MatrixDirWatcher::new(Vec::new(), CollectingHandler::new()).unwrap();
    w.handle_event(
        NotifyKind::CreateFolder,
        vec![path(&["other"], PathData::RoomFiles(vec![scan("200.jsonl", b"hi\n")]))],
    )
    .unwrap();
    w.handle_event(
        NotifyKind::CreateFile,
        vec![path(&["other", "200.jsonl"], PathData::FileContent(b"hi\n".to_vec()))],
    )
    .unwrap();
    w.handle_event(
        NotifyKind::ModifyData,
        vec![path(&["other", "200.jsonl"], PathData::Appended(Vec::new()))],
    )
    .unwrap();
    assert_eq!(w.handler.events, vec!["hi".to_string()]);

    // file-created first, then directory-created, then data-modified
    let mut w2 = MatrixDirWatcher::new(Vec::new(), CollectingHandler::new()).unwrap();
    w2.handle_event(
        NotifyKind::CreateFile,
        vec![path(&["other", "200.jsonl"], PathData::FileContent(b"hi\n".to_vec()))],
    )
    .unwrap();
    w2.handle_event(
        NotifyKind::CreateFolder,
        vec![path(&["other"], PathData::RoomFiles(vec![scan("200.jsonl", b"hi\n")]))],
    )
    .unwrap();
    w2.handle_event(
        NotifyKind::ModifyData,
        vec![path(&["other", "200.jsonl"], PathData::Appended(Vec::new()))],
    )
    .unwrap();
    assert_eq!(w2.handler.events, vec!["hi".to_string()]);
}

#[test]
fn duplicate_create_for_a_tracked_file_is_ignored() {
    let mut w = MatrixDirWatcher::new(
        vec![room("default", vec![scan("100.jsonl", b"one\n")])],
        CollectingHandler::new(),
    )
    .unwrap();
    w.handle_event(
        NotifyKind::CreateFile,
        vec![path(&["default", "100.jsonl"], PathData::FileContent(b"one\n".to_vec()))],
    )
    .unwrap();
    assert_eq!(w.handler.events, vec!["one".to_string()]);
}

#[test]
fn create_at_the_wrong_depth_is_ignored() {
    let mut w = MatrixDirWatcher::new(Vec::new(), CollectingHandler::new()).unwrap();
    w.handle_event(
        NotifyKind::CreateFile,
        vec![path(&["stray"], PathData::FileContent(b"x\n".to_vec()))],
    )
    .unwrap();
    w.handle_event(
        NotifyKind::CreateFile,
        vec![path(
            &["a", "b", "c.jsonl"],
            PathData::FileContent(b"x\n".to_vec()),
        )],
    )
    .unwrap();
    w.handle_event(
        NotifyKind::CreateFolder,
        vec![path(&["a", "deep"], PathData::RoomFiles(Vec::new()))],
    )
    .unwrap();
    assert_eq!(w.handler.events.len(), 0);
    assert_eq!(w.tracked_offset("stray", ""), None);
}

#[test]
fn the_lock_marker_is_always_ignored() {
    let mut w = MatrixDirWatcher::new(Vec::new(), CollectingHandler::new()).unwrap();
    w.handle_event(
        NotifyKind::CreateFile,
        vec![path(&["lock.pid"], PathData::FileContent(b"123".to_vec()))],
    )
    .unwrap();
    assert_eq!(w.handler.events.len(), 0);
}

#[test]
fn removal_raises_an_explicit_error() {
    let mut w = MatrixDirWatcher::new(
        vec![room("default", vec![scan("100.jsonl", b"one\n")])],
        CollectingHandler::new(),
    )
    .unwrap();
    let r = w.handle_event(
        NotifyKind::RemoveFile,
        vec![path(&["default", "100.jsonl"], PathData::Nothing)],
    );
    assert_eq!(r, Err(StoreError::RemovalUnsupported));
    let r2 = w.handle_event(NotifyKind::RemoveFolder, vec![path(&["default"], PathData::Nothing)]);
    assert_eq!(r2, Err(StoreError::RemovalUnsupported));
}

#[test]
fn unrelated_notification_kinds_are_skipped() {
    let mut w = MatrixDirWatcher::new(
        vec![room("default", vec![scan("100.jsonl", b"one\n")])],
        CollectingHandler::new(),
    )
    .unwrap();
    w.handle_event(NotifyKind::Other, vec![path(&["default", "100.jsonl"], PathData::Nothing)])
        .unwrap();
    assert_eq!(w.handler.events, vec!["one".to_string()]);
}

#[test]
fn a_bad_segment_name_fails_the_bootstrap() {
    let r = MatrixDirWatcher::new(
        vec![room("default", vec![scan("notes.txt", b"")])],
        CollectingHandler::new(),
    );
    assert!(matches!(r, Err(StoreError::InvalidSegmentName)));
}

#[test]
fn draining_a_follower_delivers_each_buffered_line_once() {
    let mut handler = CollectingHandler::new();
    let mut follower = FileMessageIterator::new(true);
    follower.feed(b"a\nb\npartial");
    emit_events_from_follower(&mut follower, &mut handler);
    assert_eq!(handler.events, vec!["a".to_string(), "b".to_string()]);
    emit_events_from_follower(&mut follower, &mut handler);
    assert_eq!(handler.events.len(), 2);
    follower.feed(b" done\n");
    emit_events_from_follower(&mut follower, &mut handler);
    assert_eq!(handler.events, vec!["a".to_string(), "b".to_string(), "partial done".to_string()]);
}

#[test]
fn growth_after_a_decode_failure_is_not_delivered() {
    // the first record of the segment does not decode: its sequence is dead
    let mut w = MatrixDirWatcher::new(
        vec![room("default", vec![scan("100.jsonl", &[0xff, b'\n'])])],
        CollectingHandler::new(),
    )
    .unwrap();
    assert_eq!(w.handler.events.len(), 0);
    w.handle_event(
        NotifyKind::ModifyData,
        vec![path(&["default", "100.jsonl"], PathData::Appended(b"ok\n".to_vec()))],
    )
    .unwrap();
    // the follower still advances its offset, but delivers nothing more
    assert_eq!(w.handler.events.len(), 0);
    assert_eq!(w.tracked_offset("default", "100.jsonl"), Some(5));
}
