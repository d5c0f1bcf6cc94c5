use seglog::error::Error;
use seglog::message::Message;
use seglog::storage::offset_index::{Index as OffsetEntry, OffsetIndex};
use seglog::storage::segment::Segment;
use seglog::storage::timestamp_index::{Index as TimeEntry, TimestampIndex};

#[test]
fn segment_rejects_out_of_range_writes() {
    let mut seg = Segment::new("./seg".to_string(), 1, (5, 10)).unwrap();
    let below = Message::new(2, 1, None, b"x".to_vec());
    assert_eq!(seg.write(below).unwrap_err(), Error::OutOfRange);
    let beyond = Message::new(99, 1, None, b"x".to_vec());
    assert_eq!(seg.write(beyond).unwrap_err(), Error::OutOfRange);
    assert_eq!(seg.size().unwrap(), 0);
}

#[test]
fn segment_range_test_is_half_open() {
    let seg = Segment::new("./seg".to_string(), 0, (5, 10)).unwrap();
    assert!(!seg.belongs_to_segment(4));
    assert!(seg.belongs_to_segment(5));
    assert!(seg.belongs_to_segment(9));
    assert!(!seg.belongs_to_segment(10));
}

#[test]
fn segment_read_by_timestamp_returns_writers_record() {
    let mut seg = Segment::new("./seg".to_string(), 0, (0, 5)).unwrap();
    seg.write(Message::new(0, 100, None, b"a".to_vec())).unwrap();
    seg.write(Message::new(1, 200, Some(b"k".to_vec()), b"b".to_vec())).unwrap();
    seg.write(Message::new(2, 300, None, b"c".to_vec())).unwrap();
    let m = seg.read_by_timestamp(200).unwrap();
    assert_eq!(m.offset, 1);
    assert_eq!(m.value, b"b".to_vec());
    assert_eq!(seg.read_by_timestamp(150).unwrap_err(), Error::NotFound);
}

#[test]
fn segment_equal_timestamps_resolve_to_earliest() {
    let mut seg = Segment::new("./seg".to_string(), 0, (0, 5)).unwrap();
    seg.write(Message::new(0, 50, None, b"first".to_vec())).unwrap();
    seg.write(Message::new(1, 50, None, b"second".to_vec())).unwrap();
    let m = seg.read_by_timestamp(50).unwrap();
    assert_eq!(m.offset, 0);
    assert_eq!(m.value, b"first".to_vec());
}

#[test]
fn segment_recovery_round_trip() {
    let mut seg = Segment::new("./seg".to_string(), 0, (0, 5)).unwrap();
    seg.write(Message::new(0, -7, Some(b"k0".to_vec()), b"v0".to_vec())).unwrap();
    seg.write(Message::new(1, 8, None, b"v1".to_vec())).unwrap();
    let files = seg.files();
    let back = Segment::load(
        "./seg".to_string(),
        0,
        (0, 5),
        files.log,
        files.index,
        files.timeindex,
    )
    .unwrap();
    assert_eq!(back.size().unwrap(), 2);
    let m0 = back.read(0).unwrap();
    assert_eq!(m0.timestamp, -7);
    assert_eq!(m0.key, Some(b"k0".to_vec()));
    assert_eq!(m0.value, b"v0".to_vec());
    let m1 = back.read(1).unwrap();
    assert_eq!(m1.timestamp, 8);
    assert_eq!(m1.key, None);
    assert_eq!(back.read(2).unwrap_err(), Error::NotFound);
}

#[test]
fn offset_index_direct_addressing() {
    let mut oi = OffsetIndex::new();
    oi.write(5, 0).unwrap();
    oi.write(6, 40).unwrap();
    assert_eq!(oi.size().unwrap(), 2);
    assert_eq!(oi.read(5).unwrap(), 0);
    assert_eq!(oi.read(6).unwrap(), 40);
    assert_eq!(oi.read(4).unwrap_err(), Error::NotFound);
    assert_eq!(oi.read(7).unwrap_err(), Error::NotFound);
}

#[test]
fn offset_index_key_mismatch_is_corruption() {
    let mut oi = OffsetIndex::new();
    // Entries that break the density discipline the index relies on.
    oi.write(5, 0).unwrap();
    oi.write(9, 100).unwrap();
    assert_eq!(oi.read(6).unwrap_err(), Error::Consistency);
}

#[test]
fn offset_index_empty_lookup_misses() {
    let oi = OffsetIndex::new();
    assert_eq!(oi.read(0).unwrap_err(), Error::NotFound);
    assert_eq!(oi.size().unwrap(), 0);
}

#[test]
fn timestamp_index_exact_match_scan() {
    let mut ti = TimestampIndex::new();
    ti.write(100, 0).unwrap();
    ti.write(250, 1).unwrap();
    ti.write(250, 2).unwrap();
    assert_eq!(ti.size().unwrap(), 3);
    assert_eq!(ti.read(100).unwrap(), 0);
    // Exact match, earliest entry wins.
    assert_eq!(ti.read(250).unwrap(), 1);
    assert_eq!(ti.read(99).unwrap_err(), Error::NotFound);
}

#[test]
fn timestamp_index_latest_reads_last_entry() {
    let mut ti = TimestampIndex::new();
    assert_eq!(ti.latest_timestamp().unwrap_err(), Error::NotFound);
    ti.write(100, 0).unwrap();
    ti.write(-3, 1).unwrap();
    assert_eq!(ti.latest_timestamp().unwrap(), -3);
}

#[test]
fn index_entry_sizes_are_fixed() {
    assert_eq!(OffsetEntry::size(), 16);
    assert_eq!(TimeEntry::size(), 16);
    let bytes = OffsetEntry::serialize(OffsetEntry { logical: 1, physical: 2 }).unwrap();
    assert_eq!(bytes.len(), OffsetEntry::size());
    let entry = OffsetEntry::deserialize(&bytes).unwrap();
    assert_eq!(entry.logical, 1);
    assert_eq!(entry.physical, 2);
    let tbytes = TimeEntry::serialize(TimeEntry { offset: 3, timestamp: -4 }).unwrap();
    assert_eq!(tbytes.len(), TimeEntry::size());
    let tentry = TimeEntry::deserialize(&tbytes).unwrap();
    assert_eq!(tentry.offset, 3);
    assert_eq!(tentry.timestamp, -4);
}

#[test]
fn index_entry_deserialize_rejects_short_buffers() {
    assert_eq!(
        OffsetEntry::deserialize(&vec![0u8; 15]).unwrap_err(),
        Error::Serialization
    );
    assert_eq!(
        TimeEntry::deserialize(&vec![0u8; 3]).unwrap_err(),
        Error::Serialization
    );
}
