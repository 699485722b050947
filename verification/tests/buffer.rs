use vexfs::fs::buffer::WriteBuffer;

#[test]
fn test_write_and_read() {
    let mut buf = WriteBuffer::new(100, 5);
    buf.write(2, "file.txt", vec![1, 2, 3], 0);
    assert_eq!(buf.get(2).unwrap(), &vec![1, 2, 3]);
}

#[test]
fn test_flush_when_full() {
    let mut buf = WriteBuffer::new(3, 60);
    buf.write(2, "a.txt", vec![1], 0);
    buf.write(3, "b.txt", vec![2], 1);
    buf.write(4, "c.txt", vec![3], 2);
    let due = buf.due_for_flush();
    assert_eq!(due.len(), 3);
}

#[test]
fn test_take_removes_entry() {
    let mut buf = WriteBuffer::new(100, 5);
    buf.write(2, "file.txt", vec![1, 2, 3], 0);
    let taken = buf.take(2);
    assert!(taken.is_some());
    assert!(buf.get(2).is_none());
}

#[test]
fn test_take_all_drains() {
    let mut buf = WriteBuffer::new(100, 5);
    buf.write(2, "a.txt", vec![1], 0);
    buf.write(3, "b.txt", vec![2], 1);
    let all = buf.take_all();
    assert_eq!(all.len(), 2);
    assert!(buf.is_empty());
}

#[test]
fn due_by_age_at_given_time() {
    let mut buf = WriteBuffer::new(10, 5);
    buf.write_at(1, "old.txt", vec![1], 0, 100);
    buf.write_at(2, "new.txt", vec![2], 1, 103);
    let due = buf.due_for_flush_at(105);
    assert_eq!(due, vec![1]);
    let mut due = buf.due_for_flush_at(108);
    due.sort();
    assert_eq!(due, vec![1, 2]);
    // a clock that went backwards counts as no wait at all
    assert!(buf.due_for_flush_at(50).is_empty());
}

#[test]
fn take_returns_data_index_and_name() {
    let mut buf = WriteBuffer::new(10, 5);
    buf.write(7, "seven.rs", vec![7, 7], 3);
    buf.write(7, "seven.rs", vec![8], 4);
    assert_eq!(buf.len(), 1);
    assert_eq!(buf.take(7), Some((vec![8], 4, "seven.rs".to_string())));
    assert_eq!(buf.take(7), None);
}

#[test]
fn take_all_yields_every_entry() {
    let mut buf = WriteBuffer::new(10, 5);
    buf.write(1, "a", vec![1], 10);
    buf.write(2, "b", vec![2], 20);
    let mut all = buf.take_all();
    all.sort();
    assert_eq!(all, vec![(1, vec![1], 10, "a".to_string()), (2, vec![2], 20, "b".to_string())]);
}

#[test]
fn take_shrinks_by_one_only_when_pending() {
    let mut b = WriteBuffer::new(10, 5);
    b.write(1, "a", vec![1], 0);
    b.write(2, "b", vec![2], 1);
    assert_eq!(b.len(), 2);
    assert!(b.take(3).is_none());
    assert_eq!(b.len(), 2);
    assert_eq!(b.take(1), Some((vec![1], 0, "a".to_string())));
    assert_eq!(b.len(), 1);
    assert!(b.get(1).is_none());
    assert_eq!(b.get(2), Some(&vec![2]));
}
