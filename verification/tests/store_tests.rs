use matrixdir::matrixroomdir::FileScan;
use matrixdir::read_write::{Read, Write};
use matrixdir::{FollowStep, LockFile, LockMarker, MatrixDir, MatrixRoomDir, RoomScan, StoreError};

fn scan(name: &str, content: &[u8]) -> FileScan {
    FileScan { name: name.to_string(), content: content.to_vec() }
}

fn drain(it: &mut matrixdir::RoomMessageIterator) -> Vec<String> {
    let mut out = Vec::new();
    loop {
        match it.next() {
            FollowStep::Line(s) => out.push(s),
            FollowStep::Pending => break,
            FollowStep::End => break,
        }
    }
    out
}

#[test]
fn writes_with_nondecreasing_timestamps_replay_in_order() {
    let mut room = MatrixRoomDir::<Write>::new_writer("default".to_string(), Vec::new()).unwrap();
    room.write_event("a\n", 100);
    room.write_event("b\n", 150);
    room.write_event("c\n", 150);
    // one segment took them all
    assert_eq!(room.message_files().len(), 1);
    assert_eq!(room.message_files()[0].start, 100);
    let mut it = room.messages(false);
    assert_eq!(drain(&mut it), vec!["a", "b", "c"]);
}

#[test]
fn segment_selection_is_idempotent() {
    let mut room = MatrixRoomDir::<Write>::new_writer(
        "default".to_string(),
        vec![scan("100.jsonl", b"x\n")],
    )
    .unwrap();
    let first = room.write_event("y\n", 150);
    assert!(!first.created);
    assert_eq!(first.start, 100);
    assert_eq!(first.name, b"100.jsonl".to_vec());
    let second = room.write_event("z\n", 200);
    assert!(!second.created);
    assert_eq!(second.start, 100);
    assert_eq!(room.message_files().len(), 1);
    let mut it = room.messages(false);
    assert_eq!(drain(&mut it), vec!["x", "y", "z"]);
}

#[test]
fn floor_lookup_routes_between_segments() {
    let mut room = MatrixRoomDir::<Write>::new_writer(
        "default".to_string(),
        vec![scan("200.jsonl", b""), scan("100.jsonl", b"")],
    )
    .unwrap();
    let mid = room.write_event("mid\n", 150);
    assert_eq!(mid.start, 100);
    let late = room.write_event("late\n", 200);
    assert_eq!(late.start, 200);
    assert_eq!(room.message_files().len(), 2);
    assert_eq!(room.message_files()[0].content, b"mid\n".to_vec());
    assert_eq!(room.message_files()[1].content, b"late\n".to_vec());
}

#[test]
fn a_write_before_every_segment_opens_a_new_one() {
    let mut room = MatrixRoomDir::<Write>::new_writer(
        "default".to_string(),
        vec![scan("100.jsonl", b"x\n")],
    )
    .unwrap();
    let out = room.write_event("early\n", 50);
    assert!(out.created);
    assert_eq!(out.start, 50);
    assert_eq!(out.name, b"50.jsonl".to_vec());
    assert_eq!(room.message_files().len(), 2);
    assert_eq!(room.message_files()[0].name, b"50.jsonl".to_vec());
    assert_eq!(room.message_files()[0].start, 50);
    let mut it = room.messages(false);
    assert_eq!(drain(&mut it), vec!["early", "x"]);
}

#[test]
fn reload_merges_without_reopening_known_segments() {
    let mut room = MatrixRoomDir::<Write>::new_writer(
        "default".to_string(),
        vec![scan("100.jsonl", b"old\n")],
    )
    .unwrap();
    room.reload_files(vec![scan("100.jsonl", b"IGNORED\n"), scan("200.jsonl", b"new\n")])
        .unwrap();
    assert_eq!(room.message_files().len(), 2);
    // the known segment kept its handle; only the new one was opened
    assert_eq!(room.message_files()[0].content, b"old\n".to_vec());
    assert_eq!(room.message_files()[1].content, b"new\n".to_vec());
}

#[test]
fn a_non_decimal_segment_name_is_fatal_to_the_scan() {
    let r = MatrixRoomDir::<Write>::new_writer(
        "default".to_string(),
        vec![scan("notes.txt", b"")],
    );
    assert_eq!(r.err(), Some(StoreError::InvalidSegmentName));
    let r2 = MatrixRoomDir::<Read>::new_reader("default".to_string(), vec![scan(".jsonl", b"")]);
    assert_eq!(r2.err(), Some(StoreError::InvalidSegmentName));
}

#[test]
fn reader_add_file_tracks_a_new_segment() {
    let mut room = MatrixRoomDir::<Read>::new_reader("default".to_string(), Vec::new()).unwrap();
    room.add_file(scan("100.jsonl", b"a\n")).unwrap();
    assert_eq!(room.name(), "default");
    assert_eq!(room.message_files().len(), 1);
    let mut it = room.messages(false);
    assert_eq!(drain(&mut it), vec!["a"]);
}

#[test]
fn room_follow_mode_pends_instead_of_ending() {
    let room = MatrixRoomDir::<Read>::new_reader(
        "default".to_string(),
        vec![scan("100.jsonl", b"a\n")],
    )
    .unwrap();
    let mut it = room.messages(true);
    match it.next() {
        FollowStep::Line(s) => assert_eq!(s, "a"),
        _ => panic!("expected the line"),
    }
    assert!(matches!(it.next(), FollowStep::Pending));
    assert!(matches!(it.next(), FollowStep::Pending));
}

#[test]
fn second_writer_fails_until_the_first_releases() {
    let mut marker = LockMarker::new();
    let w1 = MatrixDir::<Write>::new_writer(&mut marker, Vec::new()).unwrap();
    assert!(marker.present);
    let w2 = MatrixDir::<Write>::new_writer(&mut marker, Vec::new());
    assert_eq!(w2.err(), Some(StoreError::AlreadyLocked));
    w1.close(&mut marker);
    // the marker file is gone; a new writer succeeds
    assert!(!marker.present);
    let w3 = MatrixDir::<Write>::new_writer(&mut marker, Vec::new());
    assert!(w3.is_ok());
}

#[test]
fn lock_contention_is_its_own_error() {
    let mut marker = LockMarker::new();
    let first = LockFile::try_create(&mut marker).unwrap();
    match LockFile::try_create(&mut marker) {
        Err(e) => assert_eq!(e, StoreError::AlreadyLocked),
        Ok(_) => panic!("the second writer must not take the lock"),
    }
    first.release(&mut marker);
    assert!(!marker.present);
}

#[test]
fn store_routes_writes_and_creates_rooms_on_demand() {
    let mut marker = LockMarker::new();
    let mut dir = MatrixDir::<Write>::new_writer(&mut marker, Vec::new()).unwrap();
    let out = dir.write_event("hi\n", "beta".to_string(), 100);
    assert!(out.room_created);
    assert!(out.segment.created);
    assert_eq!(out.segment.start, 100);
    let again = dir.write_event("ho\n", "beta".to_string(), 150);
    assert!(!again.room_created);
    assert!(!again.segment.created);
    let other = dir.write_event("hey\n", "alpha".to_string(), 100);
    assert!(other.room_created);
    // rooms come back in name order
    let names: Vec<String> = dir.rooms().iter().map(|r| r.name()).collect();
    assert_eq!(names, vec!["alpha".to_string(), "beta".to_string()]);
    let mut it = dir.rooms()[1].messages(false);
    assert_eq!(drain(&mut it), vec!["hi", "ho"]);
}

#[test]
fn store_reader_scans_rooms_in_name_order() {
    let dir = MatrixDir::<Read>::new_reader(vec![
        RoomScan { name: "zeta".to_string(), files: vec![scan("100.jsonl", b"z\n")] },
        RoomScan { name: "alpha".to_string(), files: vec![scan("200.jsonl", b"a\n")] },
    ])
    .unwrap();
    let names: Vec<String> = dir.rooms().iter().map(|r| r.name()).collect();
    assert_eq!(names, vec!["alpha".to_string(), "zeta".to_string()]);
}

#[test]
fn store_reload_picks_up_new_rooms() {
    let mut dir = MatrixDir::<Read>::new_reader(Vec::new()).unwrap();
    assert_eq!(dir.rooms().len(), 0);
    dir.reload_rooms(vec![RoomScan {
        name: "default".to_string(),
        files: vec![scan("100.jsonl", b"a\n")],
    }])
    .unwrap();
    assert_eq!(dir.rooms().len(), 1);
    assert_eq!(dir.rooms()[0].name(), "default");
}

#[test]
fn undecodable_record_ends_only_its_segment() {
    let room = MatrixRoomDir::<Read>::new_reader(
        "default".to_string(),
        vec![
            scan("100.jsonl", &[b'a', b'\n', 0xff, b'\n', b'x', b'\n']),
            scan("200.jsonl", b"b\n"),
        ],
    )
    .unwrap();
    let mut it = room.messages(false);
    // the undecodable record and everything after it in its segment are
    // withheld; the next segment still replays
    assert_eq!(drain(&mut it), vec!["a", "b"]);
}
