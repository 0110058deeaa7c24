use matrixdir::names::{bytes_eq, bytes_lt, parse_decimal, parse_start, stem_bytes, u128_to_dec};
use matrixdir::read_write::{Read, Write};
use matrixdir::{FileMessageIterator, FollowStep, MatrixFile};

fn expect_line(step: FollowStep, want: &str) {
    match step {
        FollowStep::Line(s) => assert_eq!(s, want),
        FollowStep::Pending => panic!("expected a line, got pending"),
        FollowStep::End => panic!("expected a line, got the end"),
    }
}

fn expect_pending(step: FollowStep) {
    assert!(matches!(step, FollowStep::Pending));
}

fn expect_end(step: FollowStep) {
    assert!(matches!(step, FollowStep::End));
}

#[test]
fn follower_pops_complete_lines() {
    let mut it = FileMessageIterator::new(false);
    it.feed(b"hello\nworld\n");
    expect_line(it.next(), "hello");
    expect_line(it.next(), "world");
    expect_end(it.next());
    expect_end(it.next());
}

#[test]
fn follow_mode_pends_at_end_of_data_and_resumes() {
    let mut it = FileMessageIterator::new(true);
    it.feed(b"hello\nwor");
    expect_line(it.next(), "hello");
    expect_pending(it.next());
    expect_pending(it.next());
    it.feed(b"ld\n");
    expect_line(it.next(), "world");
    expect_pending(it.next());
}

#[test]
fn non_follow_mode_ends_at_end_of_data() {
    let mut it = FileMessageIterator::new(false);
    it.feed(b"partial");
    expect_end(it.next());
}

#[test]
fn empty_line_round_trips() {
    let mut it = FileMessageIterator::new(false);
    it.feed(b"\na\n");
    expect_line(it.next(), "");
    expect_line(it.next(), "a");
    expect_end(it.next());
}

#[test]
fn undecodable_line_is_fatal_to_the_sequence() {
    let mut it = FileMessageIterator::new(true);
    it.feed(&[0xff, 0xfe, b'\n', b'o', b'k', b'\n']);
    expect_end(it.next());
    // the sequence stays ended, even in follow mode
    expect_end(it.next());
}

#[test]
fn file_reader_replays_its_content() {
    let file = MatrixFile::<Read>::new_reader(b"100.jsonl".to_vec(), 100, b"a\nbb\n".to_vec());
    assert_eq!(file.size(), 5);
    let mut it = file.messages(false);
    expect_line(it.next(), "a");
    expect_line(it.next(), "bb");
    expect_end(it.next());
    // restartable: a fresh sequence replays from the start
    let mut again = file.messages(false);
    expect_line(again.next(), "a");
    expect_line(again.next(), "bb");
}

#[test]
fn file_writer_appends_verbatim() {
    let mut file = MatrixFile::<Write>::new_writer(b"0.jsonl".to_vec(), 0, Vec::new());
    file.append(b"one\n");
    file.append(b"two\n");
    assert_eq!(file.size(), 8);
    assert_eq!(file.content, b"one\ntwo\n".to_vec());
}

#[test]
fn parse_decimal_reads_digits_only() {
    assert_eq!(parse_decimal(b"0"), Some(0));
    assert_eq!(parse_decimal(b"100"), Some(100));
    assert_eq!(parse_decimal(b"007"), Some(7));
    assert_eq!(parse_decimal(b""), None);
    assert_eq!(parse_decimal(b"10a"), None);
    assert_eq!(parse_decimal(b"-1"), None);
    assert_eq!(parse_decimal(b"1 "), None);
}

#[test]
fn parse_decimal_respects_the_range() {
    assert_eq!(
        parse_decimal(b"340282366920938463463374607431768211455"),
        Some(u128::MAX)
    );
    assert_eq!(parse_decimal(b"340282366920938463463374607431768211456"), None);
}

#[test]
fn stems_and_starts() {
    assert_eq!(stem_bytes(b"100.jsonl"), b"100");
    assert_eq!(stem_bytes(b"100"), b"100");
    assert_eq!(stem_bytes(b"a.b.c"), b"a.b");
    assert_eq!(parse_start(b"100.jsonl"), Some(100));
    assert_eq!(parse_start(b"100"), Some(100));
    assert_eq!(parse_start(b"abc.jsonl"), None);
    assert_eq!(parse_start(b".jsonl"), None);
}

#[test]
fn decimal_rendering_round_trips() {
    assert_eq!(u128_to_dec(0), b"0".to_vec());
    assert_eq!(u128_to_dec(7), b"7".to_vec());
    assert_eq!(u128_to_dec(12345), b"12345".to_vec());
    assert_eq!(parse_decimal(&u128_to_dec(u128::MAX)), Some(u128::MAX));
}

#[test]
fn byte_order_and_equality() {
    assert!(bytes_lt(b"a", b"b"));
    assert!(bytes_lt(b"a", b"ab"));
    assert!(!bytes_lt(b"b", b"a"));
    assert!(!bytes_lt(b"a", b"a"));
    assert!(bytes_eq(b"a", b"a"));
    assert!(!bytes_eq(b"a", b"ab"));
}
