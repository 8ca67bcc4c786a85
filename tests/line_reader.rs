use game_sync::line_reader::{IncrementalLineReader, ReadError, ReadOutcome};

#[test]
fn partial_line_is_completed_by_later_read() {
    let mut r = IncrementalLineReader::new();
    assert!(r.feed(b"abc").is_empty());
    assert_eq!(r.feed(b"def\n"), vec![b"abcdef\n".to_vec()]);
}

#[test]
fn clean_close_yields_one_empty_line() {
    let mut r = IncrementalLineReader::new();
    let _ = r.feed(b"abc");
    let _ = r.feed(b"def\n");
    assert_eq!(r.finish(), vec![Vec::<u8>::new()]);
}

#[test]
fn close_with_partial_line_returns_it_first() {
    let mut r = IncrementalLineReader::new();
    let _ = r.feed(b"xy");
    assert_eq!(r.finish(), vec![b"xy".to_vec(), Vec::new()]);
}

#[test]
fn several_lines_in_one_chunk() {
    let mut r = IncrementalLineReader::new();
    assert_eq!(r.feed(b"a\nbc\n\nd"), vec![b"a\n".to_vec(), b"bc\n".to_vec(), b"\n".to_vec()]);
    assert_eq!(r.feed(b"\n"), vec![b"d\n".to_vec()]);
}

#[test]
fn pull_handles_each_outcome() {
    let mut r = IncrementalLineReader::new();
    assert_eq!(r.pull(ReadOutcome::Data(b"abc".to_vec())), Ok(vec![]));
    assert_eq!(r.pull(ReadOutcome::WouldBlock), Ok(vec![]));
    assert_eq!(r.pull(ReadOutcome::Failed), Err(ReadError::IoError));
    assert_eq!(r.pull(ReadOutcome::Data(b"def\n".to_vec())), Ok(vec![b"abcdef\n".to_vec()]));
    assert_eq!(r.pull(ReadOutcome::Closed), Ok(vec![Vec::new()]));
}
