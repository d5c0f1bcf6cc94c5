use vstd::prelude::*;
use vstd::bytes::*;
use crate::error::Error;
use crate::message::{Message, MessageView, msg_wf, msg_fits, spec_encode_message,
    spec_decode_message, serialize_message, deserialize_message, msg_bounds, push_u64_le,
    push_bytes, read_u64_le, read_i64_le, copy_range, lemma_message_round_trip};
use crate::storage::offset_index::OffsetIndex;
use crate::storage::timestamp_index::TimestampIndex;

verus! {

/// The fixed-size frame written before each record in the log file.  It
/// stores the byte length of the serialized record that follows, so a reader
/// that knows only a record's physical start can read the header, learn the
/// length, and then read exactly that many bytes — no scanning, no reliance
/// on end-of-file.
#[derive(Debug)]
pub struct Header {
    pub size: usize,
}

impl Header {
    /// The encoding of a header: the record length as a 64-bit little-endian
    /// value.
    pub open spec fn spec_encode(size: int) -> Seq<u8> {
        spec_u64_to_le_bytes(size as u64)
    }

    /// The serialized size of a header, constant and known ahead of time.
    pub fn size() -> (r: usize)
        ensures
            r == 8,
    {
        8
    }

    /// Serialize one header.
    pub fn serialize(object: Header) -> (r: Result<Vec<u8>, Error>)
        ensures
            r matches Ok(v) && v@ == Self::spec_encode(object.size as int),
    {
        let mut out: Vec<u8> = Vec::new();
        push_u64_le(&mut out, object.size as u64);
        Ok(out)
    }

    /// Decode the header at the front of `buffer`.  Fails exactly when the
    /// buffer is shorter than one header or the length does not fit this
    /// machine.
    pub fn deserialize(buffer: &Vec<u8>) -> (r: Result<Header, Error>)
        ensures
            match r {
                Ok(h) => buffer@.len() >= 8 && h.size as int == spec_u64_from_le_bytes(
                    buffer@.subrange(0, 8),
                ) as int,
                Err(e) => {
                    &&& e == Error::Serialization
                    &&& (buffer@.len() >= 8 ==> spec_u64_from_le_bytes(buffer@.subrange(0, 8))
                        > usize::MAX)
                },
            },
    {
        if buffer.len() < 8 {
            return Err(Error::Serialization);
        }
        let size_u = read_u64_le(buffer, 0);
        if size_u > usize::MAX as u64 {
            return Err(Error::Serialization);
        }
        Ok(Header { size: size_u as usize })
    }
}

/// The end position of the framed record that starts at `pos` in the log:
/// the header, then as many bytes as the header announces.
pub open spec fn spec_rec_end(log: Seq<u8>, pos: int) -> int {
    pos + 8 + spec_u64_from_le_bytes(log.subrange(pos, pos + 8))
}

/// The position of the first message in `msgs` whose timestamp equals `ts`.
pub open spec fn spec_first_ts(msgs: Seq<MessageView>, ts: int) -> Option<int>
    decreases msgs.len(),
{
    if msgs.len() == 0 {
        None
    } else if msgs[0].timestamp == ts {
        Some(0)
    } else {
        match spec_first_ts(msgs.drop_first(), ts) {
            Some(k) => Some(k + 1),
            None => None,
        }
    }
}

/// Timestamp lookup finds the writer's record: if the message at position
/// `k` was written with timestamp `ts` and no earlier message of the segment
/// carries the same timestamp, then the first-match scan that
/// `read_by_timestamp` is specified by resolves to exactly position `k`.
pub proof fn lemma_first_ts_at(msgs: Seq<MessageView>, ts: int, k: int)
    requires
        0 <= k < msgs.len(),
        msgs[k].timestamp == ts,
        forall|j: int| 0 <= j < k ==> #[trigger] msgs[j].timestamp != ts,
    ensures
        spec_first_ts(msgs, ts) == Some(k),
    decreases k,
{
    if k > 0 {
        assert forall|j: int| 0 <= j < k - 1 implies #[trigger] msgs.drop_first()[j].timestamp
            != ts by {
            assert(msgs[j + 1].timestamp != ts);
        }
        lemma_first_ts_at(msgs.drop_first(), ts, k - 1);
    }
}

/// A timestamp-index scan over the entries of a well-formed segment agrees
/// with the first-match position among the segment's messages.
pub proof fn lemma_first_ts_map(es: Seq<(int, int)>, msgs: Seq<MessageView>, base: int, ts: int)
    requires
        es.len() == msgs.len(),
        forall|i: int| 0 <= i < es.len() ==> #[trigger] es[i] == (base + i, msgs[i].timestamp),
    ensures
        match spec_first_ts(msgs, ts) {
            None => crate::storage::timestamp_index::spec_first_match(es, ts) is None,
            Some(k) => {
                &&& 0 <= k < msgs.len()
                &&& msgs[k].timestamp == ts
                &&& crate::storage::timestamp_index::spec_first_match(es, ts) == Some(base + k)
            },
        },
    decreases es.len(),
{
    if es.len() > 0 {
        assert(es[0] == (base, msgs[0].timestamp));
        if msgs[0].timestamp != ts {
            let es1 = es.drop_first();
            let msgs1 = msgs.drop_first();
            assert forall|i: int| 0 <= i < es1.len() implies #[trigger] es1[i] == (
                base + 1 + i,
                msgs1[i].timestamp,
            ) by {
                assert(es[i + 1] == (base + i + 1, msgs[i + 1].timestamp));
            }
            lemma_first_ts_map(es1, msgs1, base + 1, ts);
        }
    }
}

/// Round trip through the log file: in a well-formed segment, the framed
/// bytes that the offset index points at for position `i` decode back to
/// exactly the `i`-th stored message — every written record is read back
/// equal in offset, timestamp, key and value.
pub proof fn lemma_segment_round_trip(s: Segment, i: int)
    requires
        s.wf(),
        0 <= i < s.messages@.len(),
    ensures
        ({
            let oi = crate::storage::offset_index::spec_entries(s.offset_index@);
            spec_decode_message(
                s.log@.subrange(oi[i].1 + 8, spec_rec_end(s.log@, oi[i].1)),
            ) == Some(s.messages@[i])
        }),
{
}

/// Whether the well-formed segment `q` covers the interval `range` and its
/// three files hold exactly the given bytes.  Recovery succeeds on exactly
/// the file contents that match some such segment.
pub open spec fn spec_files_match(
    q: Segment,
    range: (usize, usize),
    log: Seq<u8>,
    index: Seq<u8>,
    timeindex: Seq<u8>,
) -> bool {
    &&& q.wf()
    &&& q.range == range
    &&& q.log@ == log
    &&& q.offset_index@ == index
    &&& q.time_index@ == timeindex
}

/// No well-formed segment writes index files that are not a whole number of
/// entries, or whose entry counts disagree.
proof fn lemma_refute_misaligned(range: (usize, usize), log: Seq<u8>, index: Seq<u8>, timeindex: Seq<u8>)
    requires
        index.len() % 16 != 0 || timeindex.len() != index.len(),
    ensures
        forall|q: Segment| !spec_files_match(q, range, log, index, timeindex),
{
    assert forall|q: Segment| !spec_files_match(q, range, log, index, timeindex) by {
        if spec_files_match(q, range, log, index, timeindex) {
            let qn = q.messages@.len() as int;
            assert(q.offset_index@.len() == 16 * qn && q.time_index@.len() == 16 * qn);
            assert((16 * qn) % 16 == 0) by (nonlinear_arith)
                requires
                    qn >= 0,
            ;
        }
    }
}

/// No well-formed segment holds more records than its range has offsets.
proof fn lemma_refute_overfull(range: (usize, usize), log: Seq<u8>, index: Seq<u8>, timeindex: Seq<u8>, n: int)
    requires
        16 * n == index.len(),
        n > range.1 - range.0,
    ensures
        forall|q: Segment| !spec_files_match(q, range, log, index, timeindex),
{
    assert forall|q: Segment| !spec_files_match(q, range, log, index, timeindex) by {
        if spec_files_match(q, range, log, index, timeindex) {
            let qn = q.messages@.len() as int;
            assert(16 * qn == index.len());
        }
    }
}

/// No well-formed segment stores an index entry whose key is not the dense
/// offset of its position.
proof fn lemma_refute_key(range: (usize, usize), log: Seq<u8>, index: Seq<u8>, timeindex: Seq<u8>, j: int)
    requires
        0 <= j,
        16 * (j + 1) <= index.len(),
        crate::storage::offset_index::spec_entries(index)[j].0 != range.0 + j,
    ensures
        forall|q: Segment| !spec_files_match(q, range, log, index, timeindex),
{
    assert forall|q: Segment| !spec_files_match(q, range, log, index, timeindex) by {
        if spec_files_match(q, range, log, index, timeindex) {
            let qn = q.messages@.len() as int;
            assert(16 * qn == index.len());
            let qoi = crate::storage::offset_index::spec_entries(q.offset_index@);
            assert(qoi[j].0 == range.0 + j);
        }
    }
}

/// No well-formed segment stores an index entry whose physical position is
/// not where the log's framing chain says the record starts.
proof fn lemma_refute_pos(range: (usize, usize), log: Seq<u8>, index: Seq<u8>, timeindex: Seq<u8>, j: int, pos: int)
    requires
        0 <= j,
        16 * (j + 1) <= index.len(),
        j == 0 ==> pos == 0,
        j > 0 ==> pos == spec_rec_end(log, crate::storage::offset_index::spec_entries(index)[j - 1].1),
        crate::storage::offset_index::spec_entries(index)[j].1 != pos,
    ensures
        forall|q: Segment| !spec_files_match(q, range, log, index, timeindex),
{
    assert forall|q: Segment| !spec_files_match(q, range, log, index, timeindex) by {
        if spec_files_match(q, range, log, index, timeindex) {
            let qn = q.messages@.len() as int;
            assert(16 * qn == index.len());
            let qoi = crate::storage::offset_index::spec_entries(q.offset_index@);
            if j == 0 {
                assert(qoi[0].1 == 0);
            } else {
                assert(qoi[j - 1].0 == range.0 + j - 1);
                assert(qoi[j].1 == spec_rec_end(log, qoi[j - 1].1));
            }
        }
    }
}

/// No well-formed segment frames a record past the end of its log file.
proof fn lemma_refute_bounds(range: (usize, usize), log: Seq<u8>, index: Seq<u8>, timeindex: Seq<u8>, j: int)
    requires
        0 <= j,
        16 * (j + 1) <= index.len(),
        spec_rec_end(log, crate::storage::offset_index::spec_entries(index)[j].1) > log.len(),
    ensures
        forall|q: Segment| !spec_files_match(q, range, log, index, timeindex),
{
    assert forall|q: Segment| !spec_files_match(q, range, log, index, timeindex) by {
        if spec_files_match(q, range, log, index, timeindex) {
            let qn = q.messages@.len() as int;
            assert(16 * qn == index.len());
            let qoi = crate::storage::offset_index::spec_entries(q.offset_index@);
            assert(spec_rec_end(log, qoi[j].1) <= log.len());
        }
    }
}

/// No well-formed segment frames bytes that fail to decode, or that decode
/// to a record whose fields do not fit the machine.
proof fn lemma_refute_decode(range: (usize, usize), log: Seq<u8>, index: Seq<u8>, timeindex: Seq<u8>, j: int)
    requires
        0 <= j,
        16 * (j + 1) <= index.len(),
        ({
            let p = crate::storage::offset_index::spec_entries(index)[j].1;
            match spec_decode_message(log.subrange(p + 8, spec_rec_end(log, p))) {
                None => true,
                Some(mv) => !msg_fits(mv),
            }
        }),
    ensures
        forall|q: Segment| !spec_files_match(q, range, log, index, timeindex),
{
    assert forall|q: Segment| !spec_files_match(q, range, log, index, timeindex) by {
        if spec_files_match(q, range, log, index, timeindex) {
            let qn = q.messages@.len() as int;
            assert(16 * qn == index.len());
            let qoi = crate::storage::offset_index::spec_entries(q.offset_index@);
            assert(spec_decode_message(
                log.subrange(qoi[j].1 + 8, spec_rec_end(log, qoi[j].1)),
            ) == Some(q.messages@[j]));
            assert(msg_fits(q.messages@[j]));
        }
    }
}

/// No well-formed segment stores a record that disagrees with its position's
/// dense offset, carries an underived size, or disagrees with its timestamp
/// index entry; and the timestamp index keys are dense as well.
proof fn lemma_refute_record(range: (usize, usize), log: Seq<u8>, index: Seq<u8>, timeindex: Seq<u8>, j: int, mv: MessageView)
    requires
        0 <= j,
        16 * (j + 1) <= index.len(),
        timeindex.len() == index.len(),
        ({
            let p = crate::storage::offset_index::spec_entries(index)[j].1;
            spec_decode_message(log.subrange(p + 8, spec_rec_end(log, p))) == Some(mv)
        }),
        mv.offset != range.0 + j || mv.size != mv.value.len() || crate::storage::timestamp_index::spec_entries(timeindex)[j] != (range.0 + j, mv.timestamp),
    ensures
        forall|q: Segment| !spec_files_match(q, range, log, index, timeindex),
{
    assert forall|q: Segment| !spec_files_match(q, range, log, index, timeindex) by {
        if spec_files_match(q, range, log, index, timeindex) {
            let qn = q.messages@.len() as int;
            assert(16 * qn == index.len());
            let qoi = crate::storage::offset_index::spec_entries(q.offset_index@);
            let qti = crate::storage::timestamp_index::spec_entries(q.time_index@);
            assert(spec_decode_message(
                log.subrange(qoi[j].1 + 8, spec_rec_end(log, qoi[j].1)),
            ) == Some(q.messages@[j]));
            assert(q.messages@[j].offset == range.0 + j);
            assert(q.messages@[j].size == q.messages@[j].value.len());
            assert(qti[j] == (range.0 + j, q.messages@[j].timestamp));
        }
    }
}

/// No well-formed segment leaves bytes in its log file beyond the last
/// framed record, nor ends its log short of the frame chain.
proof fn lemma_refute_tail(range: (usize, usize), log: Seq<u8>, index: Seq<u8>, timeindex: Seq<u8>, n: int, pos: int)
    requires
        16 * n == index.len(),
        n >= 0,
        n == 0 ==> pos == 0,
        n > 0 ==> pos == spec_rec_end(log, crate::storage::offset_index::spec_entries(index)[n - 1].1),
        pos != log.len(),
    ensures
        forall|q: Segment| !spec_files_match(q, range, log, index, timeindex),
{
    assert forall|q: Segment| !spec_files_match(q, range, log, index, timeindex) by {
        if spec_files_match(q, range, log, index, timeindex) {
            let qn = q.messages@.len() as int;
            assert(16 * qn == index.len());
            let qoi = crate::storage::offset_index::spec_entries(q.offset_index@);
            if n > 0 {
                assert(qoi[n - 1].0 == range.0 + n - 1);
                assert(spec_rec_end(log, qoi[n - 1].1) == log.len());
            }
        }
    }
}

/// The byte contents of the three files of one segment, as read from disk.
/// The files share one name stem and are only ever opened together; a
/// segment reopened from disk is reconstructed from exactly these bytes.
pub struct SegmentFiles {
    pub log: Vec<u8>,
    pub index: Vec<u8>,
    pub timeindex: Vec<u8>,
}

/// A bounded, contiguous slice of logical-offset space, backed by one
/// append-only log file plus an offset index and a timestamp index.
///
/// `range` is the half-open interval of logical offsets the segment may
/// hold, fixed at creation.  The ghost `messages` field is the sequence of
/// records the files encode; `wf` ties it to the file bytes.
pub struct Segment {
    pub base_path: String,
    pub number: usize,
    pub range: (usize, usize),
    pub log: Vec<u8>,
    pub offset_index: OffsetIndex,
    pub time_index: TimestampIndex,
    pub messages: Ghost<Seq<MessageView>>,
}

impl Segment {
    /// The well-formedness of a segment: the three files are exactly the
    /// encoding of `messages`, the index entries are dense — the n-th entry
    /// corresponds to logical offset `range.0 + n` — and every record sits
    /// inside the segment's fixed range.  Density is load-bearing: it is what
    /// permits O(1) addressing into the index files.
    pub open spec fn wf(self) -> bool {
        let base = self.range.0 as int;
        let n = self.messages@.len() as int;
        let log = self.log@;
        let oi = crate::storage::offset_index::spec_entries(self.offset_index@);
        let ti = crate::storage::timestamp_index::spec_entries(self.time_index@);
        &&& self.range.0 <= self.range.1
        &&& n <= self.range.1 as int - self.range.0 as int
        &&& self.offset_index@.len() == 16 * n
        &&& self.time_index@.len() == 16 * n
        &&& oi.len() == n
        &&& ti.len() == n
        &&& (n == 0 ==> log.len() == 0)
        &&& (n > 0 ==> oi[0].1 == 0)
        &&& forall|i: int|
            #![trigger oi[i]]
            0 <= i < n ==> {
                &&& oi[i].0 == base + i
                &&& 0 <= oi[i].1
                &&& spec_rec_end(log, oi[i].1) <= log.len()
                &&& (i + 1 < n ==> oi[i + 1].1 == spec_rec_end(log, oi[i].1))
                &&& (i + 1 == n ==> spec_rec_end(log, oi[i].1) == log.len())
                &&& spec_decode_message(log.subrange(oi[i].1 + 8, spec_rec_end(log, oi[i].1)))
                    == Some(self.messages@[i])
            }
        &&& forall|i: int|
            #![trigger ti[i]]
            0 <= i < n ==> ti[i] == (base + i, self.messages@[i].timestamp)
        &&& forall|i: int|
            #![trigger self.messages@[i]]
            0 <= i < n ==> {
                &&& msg_wf(self.messages@[i])
                &&& msg_fits(self.messages@[i])
                &&& self.messages@[i].offset == base + i
                &&& self.messages@[i].size == self.messages@[i].value.len()
            }
    }

    /// A fresh, empty segment for the half-open offset interval `range`,
    /// with an empty log file and empty indexes.  The file names derive from
    /// `(path, number)` in the layer that touches the disk.
    pub fn new(path: String, number: usize, range: (usize, usize)) -> (r: Result<Segment, Error>)
        requires
            range.0 <= range.1,
        ensures
            r matches Ok(s) && {
                &&& s.wf()
                &&& s.base_path@ == path@
                &&& s.number == number
                &&& s.range == range
                &&& s.messages@ == Seq::<MessageView>::empty()
                &&& s.log@ == Seq::<u8>::empty()
                &&& s.offset_index@ == Seq::<u8>::empty()
                &&& s.time_index@ == Seq::<u8>::empty()
            },
    {
        Ok(
            Segment {
                base_path: path,
                number,
                range,
                log: Vec::new(),
                offset_index: OffsetIndex::new(),
                time_index: TimestampIndex::new(),
                messages: Ghost(Seq::empty()),
            },
        )
    }

    /// Append one record: frame the serialized message at the end of the log
    /// file, then record its location in the offset index and its timestamp
    /// in the timestamp index, as one unit.
    ///
    /// Requires the message's offset to lie within the segment's range;
    /// otherwise fails with an out-of-range error and performs no writes.
    /// Because a segment is only ever filled by sequential appends with
    /// monotonically increasing offsets, an in-range offset is the next
    /// dense offset, and the message's `size` is derived from its payload.
    pub fn write(&mut self, message: Message) -> (r: Result<(), Error>)
        requires
            old(self).wf(),
            old(self).range.0 <= message@.offset < old(self).range.1 ==> {
                &&& message@.offset == old(self).range.0 + old(self).messages@.len()
                &&& message@.size == message@.value.len()
            },
        ensures
            final(self).base_path == old(self).base_path,
            final(self).number == old(self).number,
            final(self).range == old(self).range,
            final(self).wf(),
            if old(self).range.0 <= message@.offset < old(self).range.1 {
                &&& r is Ok
                &&& final(self).messages@ == old(self).messages@.push(message@)
            } else {
                &&& r == Err::<(), Error>(Error::OutOfRange)
                &&& *final(self) == *old(self)
            },
    {
        // The range guard: reject without touching any file.
        if !(message.offset >= self.range.0 && message.offset < self.range.1) {
            return Err(Error::OutOfRange);
        }
        let ghost pre = *self;
        let logical = message.offset;
        let physical = self.log.len();
        let timestamp = message.timestamp;
        msg_bounds(&message);
        let data = serialize_message(&message);
        let header = Header::serialize(Header { size: data.len() }).unwrap();
        push_bytes(&mut self.log, &header);
        push_bytes(&mut self.log, &data);
        self.offset_index.write(logical, physical).unwrap();
        self.time_index.write(timestamp, logical).unwrap();
        self.messages = Ghost(pre.messages@.push(message@));
        proof {
            lemma_auto_spec_u64_to_from_le_bytes();
            let base = pre.range.0 as int;
            let n0 = pre.messages@.len() as int;
            let big = pre.log@.len() as int;
            let log0 = pre.log@;
            let log1 = self.log@;
            let oi0 = crate::storage::offset_index::spec_entries(pre.offset_index@);
            let oi1 = crate::storage::offset_index::spec_entries(self.offset_index@);
            let ti0 = crate::storage::timestamp_index::spec_entries(pre.time_index@);
            let ti1 = crate::storage::timestamp_index::spec_entries(self.time_index@);
            let enc = spec_encode_message(message@);
            let hb = spec_u64_to_le_bytes(data@.len() as u64);
            assert((16 * n0) % 16 == 0) by (nonlinear_arith)
                requires
                    n0 >= 0,
            ;
            assert(oi1 == oi0.push((logical as int, physical as int)));
            assert(ti1 == ti0.push((logical as int, timestamp as int)));
            assert(log1 =~= log0 + hb + enc);
            // The freshly framed record occupies [big, log1.len()).
            assert(log1.subrange(big, big + 8) =~= hb);
            assert(spec_u64_from_le_bytes(hb) == data@.len());
            assert(spec_rec_end(log1, big) == log1.len());
            assert(log1.subrange(big + 8, spec_rec_end(log1, big)) =~= enc);
            lemma_message_round_trip(message@);
            // Records already present keep their bytes and their decoding.
            assert forall|i: int| 0 <= i < n0 implies {
                &&& #[trigger] oi1[i] == oi0[i]
                &&& spec_rec_end(log1, oi0[i].1) == spec_rec_end(log0, oi0[i].1)
                &&& log1.subrange(oi0[i].1 + 8, spec_rec_end(log1, oi0[i].1)) == log0.subrange(
                    oi0[i].1 + 8,
                    spec_rec_end(log0, oi0[i].1),
                )
            } by {
                assert(oi0[i].0 == base + i);
                assert(log1.subrange(oi0[i].1, oi0[i].1 + 8) =~= log0.subrange(
                    oi0[i].1,
                    oi0[i].1 + 8,
                ));
                assert(log1.subrange(oi0[i].1 + 8, spec_rec_end(log0, oi0[i].1)) =~= log0.subrange(
                    oi0[i].1 + 8,
                    spec_rec_end(log0, oi0[i].1),
                ));
            }
            if n0 == 0 {
                assert(oi1[0].1 == 0);
            }
            assert(self.messages@.len() == n0 + 1);
            assert(self.wf());
        }
        Ok(())
    }

    /// Fetch the record stored at logical offset `offset`: look up its
    /// physical position in the offset index, read the header there, read
    /// exactly as many payload bytes as the header announces, and decode.
    #[verifier::rlimit(50)]
    pub fn read(&self, offset: usize) -> (r: Result<Message, Error>)
        requires
            self.wf(),
        ensures
            ({
                let base = self.range.0 as int;
                let n = self.messages@.len() as int;
                if !(self.range.0 <= offset < self.range.1) {
                    r == Err::<Message, Error>(Error::OutOfRange)
                } else if offset - base < n {
                    r matches Ok(m) && m@ == self.messages@[offset - base]
                } else {
                    r == Err::<Message, Error>(Error::NotFound)
                }
            }),
    {
        // The same range guard as the write path.
        if !(offset >= self.range.0 && offset < self.range.1) {
            return Err(Error::OutOfRange);
        }
        let log_len = self.log.len();
        let ghost base = self.range.0 as int;
        let ghost n = self.messages@.len() as int;
        let ghost oi = crate::storage::offset_index::spec_entries(self.offset_index@);
        let ghost c = offset as int - base;
        proof {
            if n > 0 {
                assert(oi[0].0 == base);
            }
            if 0 <= c < n {
                assert(oi[c].1 <= log_len);
            }
        }
        let physical = match self.offset_index.read(offset) {
            Ok(p) => p,
            Err(e) => {
                return Err(e);
            },
        };
        proof {
            assert(0 <= c < n && physical as int == oi[c].1);
        }
        let hbuf = copy_range(&self.log, physical, 8);
        proof {
            assert(hbuf@.subrange(0, 8) =~= hbuf@);
        }
        let head = Header::deserialize(&hbuf).unwrap();
        let buffer = copy_range(&self.log, physical + 8, head.size);
        proof {
            assert(buffer@ =~= self.log@.subrange(oi[c].1 + 8, spec_rec_end(self.log@, oi[c].1)));
        }
        deserialize_message(&buffer)
    }

    /// Fetch the record whose stored timestamp matches `timestamp` exactly.
    /// Of several records written with equal timestamps, the earliest wins;
    /// nearest-match semantics are deliberately not offered.
    pub fn read_by_timestamp(&self, timestamp: i64) -> (r: Result<Message, Error>)
        requires
            self.wf(),
        ensures
            match r {
                Ok(m) => spec_first_ts(self.messages@, timestamp as int) matches Some(k) && m@
                    == self.messages@[k],
                Err(e) => e == Error::NotFound && spec_first_ts(
                    self.messages@,
                    timestamp as int,
                ) is None,
            },
    {
        proof {
            lemma_first_ts_map(
                crate::storage::timestamp_index::spec_entries(self.time_index@),
                self.messages@,
                self.range.0 as int,
                timestamp as int,
            );
        }
        let offset = match self.time_index.read(timestamp) {
            Ok(o) => o,
            Err(e) => {
                return Err(e);
            },
        };
        self.read(offset)
    }

    /// Reopen a segment for `range` from the byte contents of its three
    /// files, validating that they are exactly the encoding of some record
    /// sequence: entry counts must agree, index entries must be dense and
    /// point where the log's framing says, and every framed record must
    /// decode.  Anything else is reported as corruption, never guessed
    /// around.
    ///
    /// Succeeds exactly on the files some well-formed segment would have
    /// written, and then reconstructs that segment's records.
    #[verifier::rlimit(100)]
    pub fn load(
        path: String,
        number: usize,
        range: (usize, usize),
        log: Vec<u8>,
        index: Vec<u8>,
        timeindex: Vec<u8>,
    ) -> (r: Result<Segment, Error>)
        requires
            range.0 <= range.1,
        ensures
            r matches Ok(s) ==> {
                &&& s.wf()
                &&& s.base_path@ == path@
                &&& s.number == number
                &&& s.range == range
                &&& s.log@ == log@
                &&& s.offset_index@ == index@
                &&& s.time_index@ == timeindex@
            },
            forall|q: Segment| #[trigger] spec_files_match(q, range, log@, index@, timeindex@)
                ==> (r matches Ok(s) && s.messages@ == q.messages@),
            r matches Err(e) ==> (e == Error::Consistency || e == Error::Serialization),
    {
        let il = index.len();
        let tl = timeindex.len();
        let log_len = log.len();
        let ghost oi = crate::storage::offset_index::spec_entries(index@);
        let ghost ti = crate::storage::timestamp_index::spec_entries(timeindex@);
        if il % 16 != 0 {
            proof {
                lemma_refute_misaligned(range, log@, index@, timeindex@);
            }
            return Err(Error::Consistency);
        }
        let n = il / 16;
        proof {
            assert(16 * (n as int) == il as int) by (nonlinear_arith)
                requires
                    n as int == il as int / 16,
                    il as int % 16 == 0,
            ;
        }
        if tl != il {
            proof {
                lemma_refute_misaligned(range, log@, index@, timeindex@);
            }
            return Err(Error::Consistency);
        }
        let capacity = range.1 - range.0;
        if n > capacity {
            proof {
                lemma_refute_overfull(range, log@, index@, timeindex@, n as int);
            }
            return Err(Error::Consistency);
        }
        let mut pos: usize = 0;
        let mut j: usize = 0;
        let ghost mut msgs: Seq<MessageView> = Seq::empty();
        while j < n
            invariant
                0 <= j <= n,
                il == index@.len(),
                tl == timeindex@.len(),
                log_len == log@.len(),
                16 * (n as int) == il as int,
                tl == il,
                n <= capacity,
                capacity == range.1 - range.0,
                range.0 <= range.1,
                oi == crate::storage::offset_index::spec_entries(index@),
                ti == crate::storage::timestamp_index::spec_entries(timeindex@),
                oi.len() == n,
                ti.len() == n,
                msgs.len() == j,
                pos <= log_len,
                j == 0 ==> pos == 0,
                j > 0 ==> oi[0].1 == 0,
                j > 0 ==> pos == spec_rec_end(log@, oi[j - 1].1),
                forall|i: int|
                    #![trigger oi[i]]
                    0 <= i < j ==> {
                        &&& oi[i].0 == range.0 + i
                        &&& 0 <= oi[i].1
                        &&& spec_rec_end(log@, oi[i].1) <= log@.len()
                        &&& (i + 1 < j ==> oi[i + 1].1 == spec_rec_end(log@, oi[i].1))
                        &&& spec_decode_message(
                            log@.subrange(oi[i].1 + 8, spec_rec_end(log@, oi[i].1)),
                        ) == Some(msgs[i])
                    },
                forall|i: int|
                    #![trigger ti[i]]
                    0 <= i < j ==> ti[i] == (range.0 + i, msgs[i].timestamp),
                forall|i: int|
                    #![trigger msgs[i]]
                    0 <= i < j ==> {
                        &&& msg_wf(msgs[i])
                        &&& msg_fits(msgs[i])
                        &&& msgs[i].offset == range.0 + i
                        &&& msgs[i].size == msgs[i].value.len()
                    },
            decreases n - j,
        {
            proof {
                assert(16 * (j as int) + 16 <= 16 * (n as int)) by (nonlinear_arith)
                    requires
                        j + 1 <= n,
                ;
            }
            let logical = read_u64_le(&index, 16 * j);
            let physical = read_u64_le(&index, 16 * j + 8);
            assert(logical == oi[j as int].0 && physical == oi[j as int].1);
            if logical != (range.0 + j) as u64 {
                proof {
                    lemma_refute_key(range, log@, index@, timeindex@, j as int);
                }
                return Err(Error::Consistency);
            }
            if physical != pos as u64 {
                proof {
                    lemma_refute_pos(range, log@, index@, timeindex@, j as int, pos as int);
                }
                return Err(Error::Consistency);
            }
            if log_len - pos < 8 {
                proof {
                    lemma_refute_bounds(range, log@, index@, timeindex@, j as int);
                }
                return Err(Error::Consistency);
            }
            let hdr = read_u64_le(&log, pos);
            let rest = log_len - pos - 8;
            if hdr > rest as u64 {
                proof {
                    lemma_refute_bounds(range, log@, index@, timeindex@, j as int);
                }
                return Err(Error::Consistency);
            }
            let hlen = hdr as usize;
            let buffer = copy_range(&log, pos + 8, hlen);
            proof {
                assert(spec_rec_end(log@, pos as int) == pos + 8 + hlen);
                assert(buffer@ == log@.subrange(pos as int + 8, spec_rec_end(log@, pos as int)));
            }
            let m = match deserialize_message(&buffer) {
                Ok(m) => m,
                Err(_) => {
                    proof {
                        lemma_refute_decode(range, log@, index@, timeindex@, j as int);
                    }
                    return Err(Error::Serialization);
                },
            };
            msg_bounds(&m);
            if m.offset != range.0 + j {
                proof {
                    lemma_refute_record(range, log@, index@, timeindex@, j as int, m@);
                }
                return Err(Error::Consistency);
            }
            if m.size != m.value.len() {
                proof {
                    lemma_refute_record(range, log@, index@, timeindex@, j as int, m@);
                }
                return Err(Error::Consistency);
            }
            let t_off = read_u64_le(&timeindex, 16 * j);
            let t_ts = read_i64_le(&timeindex, 16 * j + 8);
            assert(t_off == ti[j as int].0 && t_ts == ti[j as int].1);
            if t_off != (range.0 + j) as u64 {
                proof {
                    lemma_refute_record(range, log@, index@, timeindex@, j as int, m@);
                }
                return Err(Error::Consistency);
            }
            if t_ts != m.timestamp {
                proof {
                    lemma_refute_record(range, log@, index@, timeindex@, j as int, m@);
                }
                return Err(Error::Consistency);
            }
            proof {
                msgs = msgs.push(m@);
            }
            pos = pos + 8 + hlen;
            j = j + 1;
        }
        if pos != log_len {
            proof {
                lemma_refute_tail(range, log@, index@, timeindex@, n as int, pos as int);
            }
            return Err(Error::Consistency);
        }
        let ghost logv = log@;
        let s = Segment {
            base_path: path,
            number,
            range,
            log,
            offset_index: OffsetIndex::open(index),
            time_index: TimestampIndex::open(timeindex),
            messages: Ghost(msgs),
        };
        proof {
            assert(s.wf());
            assert forall|q: Segment|
                spec_files_match(q, s.range, s.log@, s.offset_index@, s.time_index@) implies s.messages@
                == q.messages@ by {
                let qn = q.messages@.len() as int;
                assert(16 * qn == il as int);
                let qoi = crate::storage::offset_index::spec_entries(q.offset_index@);
                assert forall|i: int| 0 <= i < n implies msgs[i] == q.messages@[i] by {
                    assert(spec_decode_message(
                        logv.subrange(qoi[i].1 + 8, spec_rec_end(logv, qoi[i].1)),
                    ) == Some(q.messages@[i]));
                    assert(oi[i] == qoi[i]);
                }
                assert(msgs =~= q.messages@);
            }
        }
        Ok(s)
    }

    /// A copy of the byte contents of this segment's three files: what the
    /// layer that touches the disk persists, and what `load` reads back.
    pub fn files(&self) -> (r: SegmentFiles)
        ensures
            r.log@ == self.log@,
            r.index@ == self.offset_index@,
            r.timeindex@ == self.time_index@,
    {
        SegmentFiles {
            log: crate::message::clone_bytes(&self.log),
            index: crate::message::clone_bytes(self.offset_index.bytes()),
            timeindex: crate::message::clone_bytes(self.time_index.bytes()),
        }
    }

    /// Pure range test: whether `offset` lies in this segment's interval.
    pub fn belongs_to_segment(&self, offset: usize) -> (r: bool)
        ensures
            r == (self.range.0 <= offset < self.range.1),
    {
        offset >= self.range.0 && offset < self.range.1
    }

    /// The number of records currently stored, defined as the entry count of
    /// the offset index; it must agree with the timestamp index, and a
    /// mismatch is a consistency error, never silently resolved.
    pub fn size(&self) -> (r: Result<usize, Error>)
        requires
            self.wf(),
        ensures
            r matches Ok(n) && n == self.messages@.len(),
    {
        let offset_size = self.offset_index.size().unwrap();
        let timestamp_size = self.time_index.size().unwrap();
        proof {
            let n = self.messages@.len() as int;
            assert((16 * n) / 16 == n) by (nonlinear_arith)
                requires
                    n >= 0,
            ;
        }
        if offset_size != timestamp_size {
            return Err(Error::Consistency);
        }
        Ok(offset_size)
    }
}

} // verus!
