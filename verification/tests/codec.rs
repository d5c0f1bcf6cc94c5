use seglog::error::Error;
use seglog::message::{deserialize_message, serialize_message, Message};
use seglog::storage::offset_index::Index as OffsetEntry;
use seglog::storage::segment::Header;
use seglog::storage::timestamp_index::Index as TimeEntry;

#[test]
fn message_codec_round_trip_with_key() {
    let m = Message::new(7, 123_456_789, Some(vec![1, 2, 3]), vec![9, 8]);
    let bytes = serialize_message(&m);
    let back = deserialize_message(&bytes).unwrap();
    assert_eq!(back.offset, 7);
    assert_eq!(back.size, 2);
    assert_eq!(back.timestamp, 123_456_789);
    assert_eq!(back.key, Some(vec![1, 2, 3]));
    assert_eq!(back.value, vec![9, 8]);
}

#[test]
fn message_codec_round_trip_without_key() {
    let m = Message::new(0, -1, None, Vec::new());
    let bytes = serialize_message(&m);
    assert_eq!(bytes.len(), 33);
    let back = deserialize_message(&bytes).unwrap();
    assert_eq!(back.offset, 0);
    assert_eq!(back.size, 0);
    assert_eq!(back.timestamp, -1);
    assert_eq!(back.key, None);
    assert_eq!(back.value, Vec::<u8>::new());
}

#[test]
fn message_encoding_matches_bincode_wire_format() {
    // The serialized record fields in declaration order, as bincode's
    // fixed-width little-endian configuration writes them.
    let m = Message::new(7, 123_456_789, Some(vec![1, 2]), vec![9, 8, 7]);
    let ours = serialize_message(&m);
    let theirs = bincode::serialize(&(
        7u64,
        3u64,
        123_456_789i64,
        Some(vec![1u8, 2u8]),
        vec![9u8, 8u8, 7u8],
    ))
    .unwrap();
    assert_eq!(ours, theirs);
}

#[test]
fn message_encoding_matches_bincode_without_key() {
    let m = Message::new(2, -42, None, vec![5]);
    let ours = serialize_message(&m);
    let theirs =
        bincode::serialize(&(2u64, 1u64, -42i64, Option::<Vec<u8>>::None, vec![5u8])).unwrap();
    assert_eq!(ours, theirs);
}

#[test]
fn index_entry_encodings_match_bincode() {
    let ours = OffsetEntry::serialize(OffsetEntry { logical: 5, physical: 123 }).unwrap();
    let theirs = bincode::serialize(&(5u64, 123u64)).unwrap();
    assert_eq!(ours, theirs);
    assert_eq!(OffsetEntry::size(), theirs.len());

    let tours = TimeEntry::serialize(TimeEntry { offset: 9, timestamp: -100 }).unwrap();
    let ttheirs = bincode::serialize(&(9u64, -100i64)).unwrap();
    assert_eq!(tours, ttheirs);
    assert_eq!(TimeEntry::size(), ttheirs.len());
}

#[test]
fn header_encoding_matches_bincode() {
    let ours = Header::serialize(Header { size: 77 }).unwrap();
    let theirs = bincode::serialize(&77u64).unwrap();
    assert_eq!(ours, theirs);
    assert_eq!(Header::size(), theirs.len());
    let back = Header::deserialize(&ours).unwrap();
    assert_eq!(back.size, 77);
}

#[test]
fn malformed_record_bytes_fail_to_decode() {
    assert_eq!(deserialize_message(&Vec::new()).unwrap_err(), Error::Serialization);
    assert_eq!(deserialize_message(&vec![0u8; 24]).unwrap_err(), Error::Serialization);
    // A record whose key-presence byte carries a third state.
    let mut bytes = serialize_message(&Message::new(0, 0, None, Vec::new()));
    bytes[24] = 7;
    assert_eq!(deserialize_message(&bytes).unwrap_err(), Error::Serialization);
    // A record with trailing bytes beyond its declared lengths.
    let mut long = serialize_message(&Message::new(0, 0, None, Vec::new()));
    long.push(0);
    assert_eq!(deserialize_message(&long).unwrap_err(), Error::Serialization);
}

#[test]
fn header_deserialize_rejects_short_buffers() {
    assert_eq!(Header::deserialize(&vec![0u8; 7]).unwrap_err(), Error::Serialization);
}

#[test]
fn error_kinds_have_messages() {
    for e in [
        Error::OutOfRange,
        Error::NotFound,
        Error::Consistency,
        Error::Serialization,
    ] {
        assert!(!e.message().is_empty());
    }
    assert_ne!(Error::OutOfRange, Error::NotFound);
}
