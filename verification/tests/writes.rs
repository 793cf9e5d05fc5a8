use amethystate::buffer::{buffer_write, Pending, PendingOp};
use amethystate::path::StorePath;

fn path(joined: &str) -> StorePath {
    let levels: Vec<&str> = joined.split('.').collect();
    StorePath::from_segments(&levels)
}

#[test]
fn a_write_of_what_is_committed_buffers_nothing() {
    let mut pending = Pending::new();
    let told = buffer_write(&mut pending, &path("a"), b"1".to_vec(), Some(b"1".to_vec()));
    assert!(told.is_none());
    assert!(pending.is_empty());
}

#[test]
fn a_write_is_buffered_and_told_against_the_committed_value() {
    let mut pending = Pending::new();
    let told = buffer_write(&mut pending, &path("a"), b"2".to_vec(), Some(b"1".to_vec()));
    assert_eq!(told, Some((Some(b"1".to_vec()), b"2".to_vec())));
    assert!(matches!(pending.get(&path("a")), Some(PendingOp::Put(b)) if b == b"2"));
}

#[test]
fn the_buffer_answers_before_the_engine() {
    let mut pending = Pending::new();
    buffer_write(&mut pending, &path("a"), b"2".to_vec(), Some(b"1".to_vec()));
    assert!(buffer_write(&mut pending, &path("a"), b"2".to_vec(), Some(b"1".to_vec())).is_none());
    let told = buffer_write(&mut pending, &path("a"), b"3".to_vec(), Some(b"1".to_vec()));
    assert_eq!(told, Some((Some(b"2".to_vec()), b"3".to_vec())));

    pending.insert(path("b"), PendingOp::Delete);
    let revived = buffer_write(&mut pending, &path("b"), b"9".to_vec(), Some(b"9".to_vec()));
    assert_eq!(revived, Some((None, b"9".to_vec())), "a buffered delete hides what is committed");
}
