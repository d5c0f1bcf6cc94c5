use seglog::bus::Event;
use seglog::partition::{InMemorySegment, Partition, SEGMENT_CAPACITY};
use seglog::message::Message;

#[test]
fn prototype_assigns_dense_offsets() {
    let mut p = Partition::new();
    for i in 0..5 {
        p.write(i as i64, None, vec![i as u8]).unwrap();
    }
    assert_eq!(p.size, 5);
    for i in 0..5 {
        let m = p.read(i).unwrap();
        assert_eq!(m.offset, i);
        assert_eq!(m.value, vec![i as u8]);
    }
    assert!(p.read(5).is_err());
}

#[test]
fn prototype_rotates_at_capacity() {
    let mut p = Partition::new();
    for i in 0..(SEGMENT_CAPACITY + 1) {
        p.write(i as i64, None, Vec::new()).unwrap();
    }
    assert_eq!(p.segments.len(), 2);
    assert_eq!(p.size, SEGMENT_CAPACITY + 1);
    let m = p.read(SEGMENT_CAPACITY).unwrap();
    assert_eq!(m.offset, SEGMENT_CAPACITY);
    assert_eq!(m.timestamp, SEGMENT_CAPACITY as i64);
}

#[test]
fn in_memory_segment_respects_its_range() {
    let mut seg = InMemorySegment::new(0);
    assert_eq!(seg.start_offset(), 0);
    assert_eq!(seg.end_offset(), SEGMENT_CAPACITY);
    assert_eq!(seg.write(Message::new(0, 1, None, b"a".to_vec())), Some(0));
    assert_eq!(seg.write(Message::new(SEGMENT_CAPACITY, 2, None, b"b".to_vec())), None);
    assert_eq!(seg.len(), 1);
    let m = seg.read(0).unwrap();
    assert_eq!(m.value, b"a".to_vec());
    assert!(seg.read(1).is_none());
}

#[test]
fn shutdown_event_compares_equal() {
    let e = Event::Shutdown;
    assert_eq!(e.clone(), Event::Shutdown);
}
