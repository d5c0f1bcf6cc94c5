use seglog::error::Error;
use seglog::storage::partition::Partition;

fn payload(i: usize) -> Vec<u8> {
    format!("m{}", i).into_bytes()
}

#[test]
fn scenario_three_segments_twelve_messages() {
    let mut p = Partition::new("./test".to_string(), 0, 5).unwrap();
    for i in 0..12 {
        p.write(1_000 + i as i64, None, payload(i)).unwrap();
    }
    assert_eq!(p.next_offset, 12);
    assert_eq!(p.segments.len(), 3);
    assert_eq!(p.segments[0].range, (0, 5));
    assert_eq!(p.segments[1].range, (5, 10));
    assert_eq!(p.segments[2].range, (10, 15));
    let m7 = p.read(7).unwrap();
    assert_eq!(m7.offset, 7);
    assert_eq!(m7.value, payload(7));
    assert_eq!(p.read(12).unwrap_err(), Error::NotFound);
}

#[test]
fn offsets_are_assigned_densely_across_rotations() {
    let mut p = Partition::new("./test".to_string(), 3, 3).unwrap();
    for i in 0..7 {
        p.write(i as i64, None, payload(i)).unwrap();
        assert_eq!(p.next_offset, i + 1);
    }
    for i in 0..7 {
        let m = p.read(i).unwrap();
        assert_eq!(m.offset, i);
    }
}

#[test]
fn written_messages_read_back_equal() {
    let mut p = Partition::new("./test".to_string(), 1, 4).unwrap();
    p.write(123_456_789, Some(b"key-a".to_vec()), b"value-a".to_vec()).unwrap();
    p.write(-42, None, Vec::new()).unwrap();
    let a = p.read(0).unwrap();
    assert_eq!(a.offset, 0);
    assert_eq!(a.size, 7);
    assert_eq!(a.timestamp, 123_456_789);
    assert_eq!(a.key, Some(b"key-a".to_vec()));
    assert_eq!(a.value, b"value-a".to_vec());
    let b = p.read(1).unwrap();
    assert_eq!(b.offset, 1);
    assert_eq!(b.size, 0);
    assert_eq!(b.timestamp, -42);
    assert_eq!(b.key, None);
    assert_eq!(b.value, Vec::<u8>::new());
}

#[test]
fn rotation_starts_new_segment_at_previous_end() {
    let mut p = Partition::new("./test".to_string(), 0, 2).unwrap();
    p.write(1, None, payload(0)).unwrap();
    p.write(2, None, payload(1)).unwrap();
    assert_eq!(p.segments.len(), 1);
    p.write(3, None, payload(2)).unwrap();
    assert_eq!(p.segments.len(), 2);
    assert_eq!(p.segments[0].range.1, p.segments[1].range.0);
    for i in 0..3 {
        assert_eq!(p.read(i).unwrap().offset, i);
    }
}

#[test]
fn recovery_reproduces_all_messages() {
    let mut p = Partition::new("./test".to_string(), 0, 4).unwrap();
    for i in 0..10 {
        p.write(7_000 + i as i64, Some(payload(i)), payload(i)).unwrap();
    }
    let files = p.files();
    let r = Partition::load("./test".to_string(), 0, 4, files).unwrap();
    assert_eq!(r.next_offset, 10);
    assert_eq!(r.segments.len(), p.segments.len());
    for i in 0..10 {
        let orig = p.read(i).unwrap();
        let back = r.read(i).unwrap();
        assert_eq!(back.offset, orig.offset);
        assert_eq!(back.timestamp, orig.timestamp);
        assert_eq!(back.key, orig.key);
        assert_eq!(back.value, orig.value);
    }
    assert_eq!(r.read(10).unwrap_err(), Error::NotFound);
}

#[test]
fn recovery_of_fresh_partition_is_empty() {
    let p = Partition::new("./test".to_string(), 2, 5).unwrap();
    let files = p.files();
    assert_eq!(files.len(), 1);
    let r = Partition::load("./test".to_string(), 2, 5, files).unwrap();
    assert_eq!(r.next_offset, 0);
    assert_eq!(r.read(0).unwrap_err(), Error::NotFound);
}

#[test]
fn recovery_rejects_no_files() {
    assert!(matches!(
        Partition::load("./test".to_string(), 0, 5, Vec::new()),
        Err(Error::Consistency)
    ));
}

#[test]
fn recovery_rejects_truncated_index() {
    let mut p = Partition::new("./test".to_string(), 0, 5).unwrap();
    p.write(1, None, payload(0)).unwrap();
    p.write(2, None, payload(1)).unwrap();
    let mut files = p.files();
    // Chop half an entry off the offset index: no whole-entry file any more.
    let cut = files[0].index.len() - 8;
    files[0].index.truncate(cut);
    assert!(matches!(
        Partition::load("./test".to_string(), 0, 5, files),
        Err(Error::Consistency)
    ));
}

#[test]
fn recovery_rejects_trailing_log_garbage() {
    let mut p = Partition::new("./test".to_string(), 0, 5).unwrap();
    p.write(1, None, payload(0)).unwrap();
    let mut files = p.files();
    // A log record with no index entry: the partial-write hazard.
    files[0].log.push(0);
    assert!(matches!(
        Partition::load("./test".to_string(), 0, 5, files),
        Err(Error::Consistency)
    ));
}

#[test]
fn recovery_rejects_malformed_record_bytes() {
    let mut p = Partition::new("./test".to_string(), 0, 5).unwrap();
    p.write(1, None, payload(0)).unwrap();
    let mut files = p.files();
    // The key-presence byte of the first record sits after the 8-byte header
    // and the three fixed 8-byte fields; no record may carry a third state.
    files[0].log[8 + 24] = 7;
    assert!(matches!(
        Partition::load("./test".to_string(), 0, 5, files),
        Err(Error::Serialization)
    ));
}

#[test]
fn read_far_past_all_segments_is_out_of_range() {
    let mut p = Partition::new("./test".to_string(), 0, 2).unwrap();
    p.write(1, None, payload(0)).unwrap();
    assert_eq!(p.read(1).unwrap_err(), Error::NotFound);
    assert_eq!(p.read(2).unwrap_err(), Error::OutOfRange);
    assert_eq!(p.read(usize::MAX).unwrap_err(), Error::OutOfRange);
}
