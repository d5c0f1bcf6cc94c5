use vstd::prelude::*;
use vstd::arithmetic::div_mod::{lemma_fundamental_div_mod, lemma_fundamental_div_mod_converse};
use crate::error::Error;
use crate::message::{Message, MessageView, RawData, clone_bytes};
use crate::storage::segment::{Segment, SegmentFiles, spec_files_match};

verus! {

/// Whether segment `s` holds exactly the byte contents of `f`.
pub open spec fn spec_seg_files(s: Segment, f: SegmentFiles) -> bool {
    &&& s.log@ == f.log@
    &&& s.offset_index@ == f.index@
    &&& s.time_index@ == f.timeindex@
}

/// Whether the well-formed partition `q`, with segments of `segment_size`
/// messages, is encoded exactly by the per-segment file contents `files`,
/// ordered by sequence number.
pub open spec fn spec_partition_files_match(
    q: Partition,
    segment_size: usize,
    files: Seq<SegmentFiles>,
) -> bool {
    &&& q.wf()
    &&& q.segment_size == segment_size
    &&& q.segments@.len() == files.len()
    &&& forall|i: int| 0 <= i < files.len() ==> spec_seg_files(#[trigger] q.segments@[i], files[i])
}

/// Whether two partitions store the same records: segment for segment the
/// same message sequences, and the same next offset.
pub open spec fn spec_same_messages(p: Partition, q: Partition) -> bool {
    &&& p.segments@.len() == q.segments@.len()
    &&& p.next_offset == q.next_offset
    &&& forall|i: int|
        0 <= i < p.segments@.len() ==> (#[trigger] p.segments@[i]).messages@
            == q.segments@[i].messages@
}

/// An immutable, append-only log of messages: one partition of a topic.
///
/// The partition owns an ordered list of segments with contiguous,
/// non-overlapping ranges of `segment_size` logical offsets each; every
/// segment but the last is full.  `next_offset` is the sole offset
/// authority: it is the offset the next accepted write receives.
pub struct Partition {
    /// Identifier of this partition within its topic.
    pub number: usize,
    /// The directory under which this partition's files live.
    pub path: String,
    /// The fixed number of messages each segment may hold.
    pub segment_size: usize,
    /// The offset that will be assigned to the next accepted write.
    pub next_offset: usize,
    /// The segments, ordered by ascending range; only ever grown at the end.
    pub segments: Vec<Segment>,
}

impl Partition {
    /// The partition invariant: at least one segment; segment `i` covers
    /// exactly `[i * segment_size, (i+1) * segment_size)`; every segment but
    /// the last is full; and `next_offset` sits at the end of the last
    /// segment's records.
    pub open spec fn wf(self) -> bool {
        let ss = self.segment_size as int;
        let k = self.segments@.len() as int;
        &&& ss >= 1
        &&& k >= 1
        &&& k * ss <= usize::MAX
        &&& forall|i: int|
            #![trigger self.segments@[i]]
            0 <= i < k ==> {
                &&& self.segments@[i].wf()
                &&& self.segments@[i].range.0 == i * ss
                &&& self.segments@[i].range.1 == (i + 1) * ss
                &&& self.segments@[i].number == i
                &&& (i < k - 1 ==> self.segments@[i].messages@.len() == ss)
            }
        &&& self.next_offset as int == (k - 1) * ss + self.segments@[k - 1].messages@.len() as int
    }

    /// The record stored at logical offset `o`: position `o % segment_size`
    /// of segment `o / segment_size`.
    pub open spec fn message_at(self, o: int) -> MessageView {
        self.segments@[o / (self.segment_size as int)].messages@[o % (self.segment_size as int)]
    }

    /// In a well-formed partition, every offset below `next_offset` names
    /// exactly one stored record: the slot that division by the segment
    /// capacity selects exists, and it lies inside its segment's range.
    pub proof fn lemma_offset_slot(self, o: int)
        requires
            self.wf(),
            0 <= o < self.next_offset,
        ensures
            ({
                let ss = self.segment_size as int;
                let i = o / ss;
                let r = o % ss;
                &&& 0 <= i < self.segments@.len()
                &&& 0 <= r < ss
                &&& o == i * ss + r
                &&& r < self.segments@[i].messages@.len()
                &&& self.segments@[i].range.0 <= o < self.segments@[i].range.1
            }),
    {
        let ss = self.segment_size as int;
        let k = self.segments@.len() as int;
        let i = o / ss;
        let r = o % ss;
        lemma_fundamental_div_mod(o, ss);
        assert(0 <= r < ss) by (nonlinear_arith)
            requires
                ss >= 1,
                r == o % ss,
        ;
        assert(o == ss * i + r);
        assert(0 <= i) by (nonlinear_arith)
            requires
                o >= 0,
                ss >= 1,
                0 <= r < ss,
                o == ss * i + r,
        ;
        assert(self.segments@[k - 1].messages@.len() <= self.segments@[k - 1].range.1 as int
            - self.segments@[k - 1].range.0 as int);
        assert(self.next_offset as int <= k * ss) by (nonlinear_arith)
            requires
                self.next_offset as int == (k - 1) * ss + self.segments@[k - 1].messages@.len(),
                self.segments@[k - 1].messages@.len() <= self.segments@[k - 1].range.1 as int
                    - self.segments@[k - 1].range.0 as int,
                self.segments@[k - 1].range.0 == (k - 1) * ss,
                self.segments@[k - 1].range.1 == k * ss,
        ;
        assert(i < k) by (nonlinear_arith)
            requires
                o == ss * i + r,
                0 <= r < ss,
                o < k * ss,
                ss >= 1,
        ;
        if i < k - 1 {
            assert(r < self.segments@[i].messages@.len());
        } else {
            assert(i == k - 1);
            assert(r < self.segments@[k - 1].messages@.len()) by (nonlinear_arith)
                requires
                    o == ss * (k - 1) + r,
                    o < (k - 1) * ss + self.segments@[k - 1].messages@.len(),
            ;
        }
        assert(self.segments@[i].range.0 <= o < self.segments@[i].range.1) by (nonlinear_arith)
            requires
                self.segments@[i].range.0 == i * ss,
                self.segments@[i].range.1 == (i + 1) * ss,
                o == ss * i + r,
                0 <= r < ss,
        ;
    }

    /// The slot arithmetic inverted: position `r` of segment `i` is logical
    /// offset `i * segment_size + r` and no other.
    pub proof fn lemma_slot_offset(ss: int, i: int, r: int)
        requires
            ss >= 1,
            0 <= i,
            0 <= r < ss,
        ensures
            (i * ss + r) / ss == i,
            (i * ss + r) % ss == r,
    {
        lemma_fundamental_div_mod_converse(i * ss + r, ss, i, r);
    }

    /// The half-open offset range of segment `n` in a partition whose
    /// segments hold `ss` messages each.
    fn segment_size(n: usize, ss: usize) -> (r: (usize, usize))
        requires
            ss >= 1,
            (n + 1) * ss <= usize::MAX,
        ensures
            r.0 == n * ss,
            r.1 == (n + 1) * ss,
            r.0 <= r.1,
    {
        proof {
            assert(n + 1 <= (n + 1) * ss && n * ss <= (n + 1) * ss) by (nonlinear_arith)
                requires
                    ss >= 1,
                    n >= 0,
            ;
        }
        (n * ss, (n + 1) * ss)
    }

    /// Accept one write: construct the message that receives `next_offset`,
    /// append it to the active (last) segment — rotating to a fresh segment
    /// first when the active one is full — and advance `next_offset`.  This
    /// is the only offset-assignment path in the store.
    pub fn write(&mut self, timestamp: i64, key: Option<RawData>, value: RawData) -> (r: Result<
        (),
        Error,
    >)
        requires
            old(self).wf(),
            old(self).next_offset + old(self).segment_size <= usize::MAX,
        ensures
            r is Ok,
            final(self).wf(),
            final(self).number == old(self).number,
            final(self).path == old(self).path,
            final(self).segment_size == old(self).segment_size,
            final(self).next_offset == old(self).next_offset + 1,
            final(self).message_at(old(self).next_offset as int) == (MessageView {
                offset: old(self).next_offset as int,
                size: value@.len() as int,
                timestamp: timestamp as int,
                key: match key {
                    Some(k) => Some(k@),
                    None => None::<Seq<u8>>,
                },
                value: value@,
            }),
            forall|o: int|
                0 <= o < old(self).next_offset ==> final(self).message_at(o) == old(
                    self,
                ).message_at(o),
            final(self).segments@.len() == if old(self).next_offset as int == old(
                self,
            ).segments@.len() * old(self).segment_size {
                old(self).segments@.len() as int + 1
            } else {
                old(self).segments@.len() as int
            },
    {
        let message = Message::new(self.next_offset, timestamp, key, value);
        let ghost mv = message@;
        let ghost pre = *self;
        let ghost ss = self.segment_size as int;
        let ghost kk = self.segments@.len() as int;
        proof {
            assert(kk * ss == (kk - 1) * ss + ss && (kk + 1) * ss == kk * ss + ss) by (
            nonlinear_arith);
        }
        let k = self.segments.len();
        let mut seg = self.segments.pop().unwrap();
        let seg_len = seg.size().unwrap();
        if seg_len < self.segment_size {
            seg.write(message).unwrap();
            self.segments.push(seg);
            self.next_offset = self.next_offset + 1;
            proof {
                assert(self.segments@ =~= pre.segments@.update(kk - 1, self.segments@[kk - 1]));
                assert forall|i: int| 0 <= i < kk implies #[trigger] self.segments@[i].wf()
                    && self.segments@[i].range == pre.segments@[i].range
                    && self.segments@[i].number == pre.segments@[i].number by {}
                assert(self.wf());
                Self::lemma_slot_offset(ss, kk - 1, seg_len as int);
                assert(self.message_at(pre.next_offset as int) == mv);
                assert forall|o: int| 0 <= o < pre.next_offset implies self.message_at(o)
                    == pre.message_at(o) by {
                    pre.lemma_offset_slot(o);
                }
            }
            Ok(())
        } else {
            // The active segment is full: rotate to a new segment whose
            // range starts where the previous one's ends.
            self.segments.push(seg);
            proof {
                assert(self.segments@ =~= pre.segments@);
                assert(seg_len == ss);
                assert(pre.next_offset as int == kk * ss);
            }
            let range = Self::segment_size(k, self.segment_size);
            let mut seg2 = Segment::new(self.path.clone(), k, range).unwrap();
            seg2.write(message).unwrap();
            self.segments.push(seg2);
            self.next_offset = self.next_offset + 1;
            proof {
                assert(self.segments@.len() == kk + 1);
                assert(self.segments@ =~= pre.segments@.push(self.segments@[kk]));
                assert(self.segments@[kk].messages@ =~= Seq::<MessageView>::empty().push(mv));
                assert(self.wf());
                Self::lemma_slot_offset(ss, kk, 0);
                assert(self.message_at(pre.next_offset as int) == mv);
                assert forall|o: int| 0 <= o < pre.next_offset implies self.message_at(o)
                    == pre.message_at(o) by {
                    pre.lemma_offset_slot(o);
                }
            }
            Ok(())
        }
    }

    /// Fetch the record at logical offset `offset`: find the segment whose
    /// range contains it — the list is ordered, so the scan is a range
    /// search — and delegate.  An offset at or past `next_offset` is never
    /// answered with a stray or default record: it fails with not-found
    /// inside the active segment's range and out-of-range beyond all
    /// segments.
    #[verifier::rlimit(50)]
    pub fn read(&self, offset: usize) -> (r: Result<Message, Error>)
        requires
            self.wf(),
        ensures
            offset < self.next_offset ==> (r matches Ok(m) && m@ == self.message_at(
                offset as int,
            )),
            offset >= self.next_offset ==> r == Err::<Message, Error>(
                if (offset as int) < self.segments@.len() * self.segment_size as int {
                    Error::NotFound
                } else {
                    Error::OutOfRange
                },
            ),
    {
        let ghost ss = self.segment_size as int;
        let ghost kk = self.segments@.len() as int;
        let ghost o = offset as int;
        let k = self.segments.len();
        let mut i: usize = 0;
        while i < k
            invariant
                self.wf(),
                0 <= i <= k,
                k == self.segments@.len(),
                ss == self.segment_size as int,
                kk == k as int,
                o == offset as int,
                forall|t: int|
                    0 <= t < i ==> !((#[trigger] self.segments@[t]).range.0 <= offset
                        < self.segments@[t].range.1),
            decreases k - i,
        {
            if self.segments[i].belongs_to_segment(offset) {
                proof {
                    assert((i as int + 1) * ss == i as int * ss + ss) by (nonlinear_arith);
                    lemma_fundamental_div_mod_converse(o, ss, i as int, o - i as int * ss);
                    if o < self.next_offset {
                        self.lemma_offset_slot(o);
                    } else {
                        // Only the last segment can contain offsets at or
                        // past next_offset.
                        if (i as int) < kk - 1 {
                            assert((i as int + 1) * ss <= (kk - 1) * ss) by (nonlinear_arith)
                                requires
                                    i as int + 1 <= kk - 1,
                                    ss >= 1,
                            ;
                            assert((kk - 1) * ss <= self.next_offset);
                            assert(false);
                        }
                        assert(i as int == kk - 1);
                    }
                }
                return self.segments[i].read(offset);
            }
            i += 1;
        }
        proof {
            // The ranges tile [0, k * segment_size); an offset missed by all
            // of them lies beyond the last range.
            if o < kk * ss {
                lemma_fundamental_div_mod(o, ss);
                let t = o / ss;
                let rm = o % ss;
                assert(0 <= rm < ss) by (nonlinear_arith)
                    requires
                        ss >= 1,
                        rm == o % ss,
                ;
                assert(0 <= t < kk) by (nonlinear_arith)
                    requires
                        o == ss * t + rm,
                        0 <= rm < ss,
                        0 <= o < kk * ss,
                        ss >= 1,
                ;
                assert(self.segments@[t].range.0 <= o < self.segments@[t].range.1) by (
                nonlinear_arith)
                    requires
                        self.segments@[t].range.0 == t * ss,
                        self.segments@[t].range.1 == (t + 1) * ss,
                        o == ss * t + rm,
                        0 <= rm < ss,
                ;
                assert(false);
            }
            assert(self.segments@[kk - 1].messages@.len() <= ss) by (nonlinear_arith)
                requires
                    self.segments@[kk - 1].messages@.len() <= self.segments@[kk - 1].range.1 as int
                        - self.segments@[kk - 1].range.0 as int,
                    self.segments@[kk - 1].range.0 == (kk - 1) * ss,
                    self.segments@[kk - 1].range.1 == kk * ss,
            ;
            assert(self.next_offset as int <= kk * ss) by (nonlinear_arith)
                requires
                    self.next_offset as int == (kk - 1) * ss + self.segments@[kk
                        - 1].messages@.len(),
                    self.segments@[kk - 1].messages@.len() <= ss,
            ;
        }
        Err(Error::OutOfRange)
    }

    /// A fresh partition: one empty segment at offset zero, nothing written.
    /// The partition directory itself is created by the layer that touches
    /// the disk; an existing directory is reopened with `load` instead.
    pub fn new(path: String, number: usize, segment_size: usize) -> (r: Result<Partition, Error>)
        requires
            segment_size >= 1,
        ensures
            r matches Ok(p) && {
                &&& p.wf()
                &&& p.path@ == path@
                &&& p.number == number
                &&& p.segment_size == segment_size
                &&& p.next_offset == 0
                &&& p.segments@.len() == 1
                &&& p.segments@[0].messages@ == Seq::<MessageView>::empty()
            },
    {
        Self::init(path, number, segment_size)
    }

    /// Fresh initialization, shared by `new`.
    fn init(path: String, number: usize, segment_size: usize) -> (r: Result<Partition, Error>)
        requires
            segment_size >= 1,
        ensures
            r matches Ok(p) && {
                &&& p.wf()
                &&& p.path@ == path@
                &&& p.number == number
                &&& p.segment_size == segment_size
                &&& p.next_offset == 0
                &&& p.segments@.len() == 1
                &&& p.segments@[0].messages@ == Seq::<MessageView>::empty()
            },
    {
        let range = Self::segment_size(0, segment_size);
        let segment = Segment::new(path.clone(), 0, range).unwrap();
        let mut segments: Vec<Segment> = Vec::new();
        segments.push(segment);
        Ok(Partition { number, path, segment_size, next_offset: 0, segments })
    }

    /// Recover a partition from the per-segment file contents found in an
    /// existing partition directory, ordered by sequence number.  Reopens
    /// one segment per discovered file triple and recomputes `next_offset`
    /// from the last segment's entry count; every earlier segment must be
    /// exactly full, and a shortfall is a consistency error rather than a
    /// guess about what a crash left behind.
    ///
    /// Succeeds exactly on the files some well-formed partition would have
    /// written, and then reconstructs that partition's records.
    pub fn load(
        path: String,
        number: usize,
        segment_size: usize,
        files: Vec<SegmentFiles>,
    ) -> (r: Result<Partition, Error>)
        requires
            segment_size >= 1,
            files@.len() * segment_size <= usize::MAX,
        ensures
            r matches Ok(p) ==> {
                &&& p.wf()
                &&& p.path@ == path@
                &&& p.number == number
                &&& p.segment_size == segment_size
                &&& p.segments@.len() == files@.len()
                &&& forall|i: int|
                    0 <= i < files@.len() ==> spec_seg_files(#[trigger] p.segments@[i], files@[i])
            },
            forall|q: Partition| #[trigger] spec_partition_files_match(q, segment_size, files@)
                ==> (r matches Ok(p) && spec_same_messages(p, q)),
            r matches Err(e) ==> (e == Error::Consistency || e == Error::Serialization),
    {
        let count = files.len();
        if count == 0 {
            return Err(Error::Consistency);
        }
        let ghost ss = segment_size as int;
        let mut segments: Vec<Segment> = Vec::new();
        let mut i: usize = 0;
        while i < count
            invariant
                0 <= i <= count,
                count == files@.len(),
                count >= 1,
                segment_size >= 1,
                ss == segment_size as int,
                files@.len() * segment_size <= usize::MAX,
                segments@.len() == i,
                forall|t: int|
                    #![trigger segments@[t]]
                    0 <= t < i ==> {
                        &&& segments@[t].wf()
                        &&& segments@[t].range.0 == t * ss
                        &&& segments@[t].range.1 == (t + 1) * ss
                        &&& segments@[t].number == t
                        &&& spec_seg_files(segments@[t], files@[t])
                        &&& (t < count - 1 ==> segments@[t].messages@.len() == ss)
                    },
                forall|t: int, qs: Segment|
                    #![trigger segments@[t], qs.wf()]
                    0 <= t < i ==> (spec_files_match(
                        qs,
                        segments@[t].range,
                        files@[t].log@,
                        files@[t].index@,
                        files@[t].timeindex@,
                    ) ==> segments@[t].messages@ == qs.messages@),
            decreases count - i,
        {
            proof {
                assert((i as int + 1) * ss <= files@.len() * ss) by (nonlinear_arith)
                    requires
                        i as int + 1 <= files@.len(),
                        ss >= 1,
                ;
            }
            let range = Self::segment_size(i, segment_size);
            let f_log = clone_bytes(&files[i].log);
            let f_index = clone_bytes(&files[i].index);
            let f_time = clone_bytes(&files[i].timeindex);
            let seg = match Segment::load(path.clone(), i, range, f_log, f_index, f_time) {
                Ok(s) => s,
                Err(e) => {
                    proof {
                        assert forall|q: Partition| !spec_partition_files_match(
                            q,
                            segment_size,
                            files@,
                        ) by {
                            if spec_partition_files_match(q, segment_size, files@) {
                                let qs = q.segments@[i as int];
                                assert(spec_seg_files(qs, files@[i as int]));
                                assert(qs.wf() && qs.range.0 == i as int * ss && qs.range.1 == (
                                i as int + 1) * ss);
                                assert(qs.range == range);
                                assert(spec_files_match(
                                    qs,
                                    range,
                                    files@[i as int].log@,
                                    files@[i as int].index@,
                                    files@[i as int].timeindex@,
                                ));
                                assert(false);
                            }
                        }
                    }
                    return Err(e);
                },
            };
            if i + 1 < count {
                let sz = seg.size().unwrap();
                if sz != segment_size {
                    proof {
                        assert forall|q: Partition| !spec_partition_files_match(
                            q,
                            segment_size,
                            files@,
                        ) by {
                            if spec_partition_files_match(q, segment_size, files@) {
                                let qs = q.segments@[i as int];
                                assert(spec_seg_files(qs, files@[i as int]));
                                assert(qs.wf() && qs.range.0 == i as int * ss && qs.range.1 == (
                                i as int + 1) * ss);
                                assert(qs.range == range);
                                assert(spec_files_match(
                                    qs,
                                    range,
                                    files@[i as int].log@,
                                    files@[i as int].index@,
                                    files@[i as int].timeindex@,
                                ));
                                assert(seg.messages@ == qs.messages@);
                                assert(qs.messages@.len() == ss);
                                assert(false);
                            }
                        }
                    }
                    return Err(Error::Consistency);
                }
            }
            segments.push(seg);
            i += 1;
        }
        let last_size = segments[count - 1].size().unwrap();
        proof {
            assert(segments@[count - 1].messages@.len() <= ss) by (nonlinear_arith)
                requires
                    segments@[count - 1].messages@.len() <= segments@[count - 1].range.1 as int
                        - segments@[count - 1].range.0 as int,
                    segments@[count - 1].range.0 == (count - 1) * ss,
                    segments@[count - 1].range.1 == count * ss,
            ;
            assert((count as int - 1) * ss + last_size <= count as int * ss) by (nonlinear_arith)
                requires
                    last_size <= ss,
                    count >= 1,
            ;
        }
        let next_offset = (count - 1) * segment_size + last_size;
        let ghost segv = segments@;
        let p = Partition { number, path, segment_size, next_offset, segments };
        proof {
            assert(p.wf());
            assert forall|q: Partition| #[trigger] spec_partition_files_match(
                q,
                segment_size,
                files@,
            ) implies spec_same_messages(p, q) by {
                assert forall|t: int| 0 <= t < count implies (#[trigger] p.segments@[t]).messages@
                    == q.segments@[t].messages@ by {
                    let qs = q.segments@[t];
                    assert(spec_seg_files(qs, files@[t]));
                    assert(qs.wf() && qs.range.0 == t * ss && qs.range.1 == (t + 1) * ss);
                    assert(qs.range == segv[t].range);
                    assert(spec_files_match(
                        qs,
                        segv[t].range,
                        files@[t].log@,
                        files@[t].index@,
                        files@[t].timeindex@,
                    ));
                    assert(segv[t].messages@ == qs.messages@);
                }
                assert(q.next_offset as int == (count - 1) * ss
                    + q.segments@[count - 1].messages@.len());
                assert(p.next_offset == q.next_offset);
            }
        }
        Ok(p)
    }

    /// Offsets are dense: in a well-formed partition, the record stored at
    /// logical offset `o` carries exactly the offset `o`, for every offset
    /// below `next_offset` — writes assign `0, 1, 2, …` in order, with no
    /// gap and no repeat, across segment rotations included.
    pub proof fn lemma_offsets_dense(self)
        requires
            self.wf(),
        ensures
            forall|o: int|
                0 <= o < self.next_offset ==> #[trigger] self.message_at(o).offset == o,
    {
        assert forall|o: int|
            0 <= o < self.next_offset implies #[trigger] self.message_at(o).offset == o by {
            self.lemma_offset_slot(o);
            let ss = self.segment_size as int;
            let i = o / ss;
            let r = o % ss;
            assert(self.segments@[i].messages@[r].offset == self.segments@[i].range.0 + r);
        }
    }

    /// Segment ranges tile the offset space: segment `i` covers exactly
    /// `[i * segment_size, (i+1) * segment_size)`, so each segment's range
    /// starts immediately after the previous one's end and no offset is ever
    /// reused by two segments.
    pub proof fn lemma_ranges_contiguous(self)
        requires
            self.wf(),
        ensures
            forall|i: int|
                0 <= i < self.segments@.len() ==> (#[trigger] self.segments@[i]).range == ((
                    i * self.segment_size as int) as usize,
                ((i + 1) * self.segment_size as int) as usize,
                ),
            forall|i: int|
                0 < i < self.segments@.len() ==> (#[trigger] self.segments@[i]).range.0
                    == self.segments@[i - 1].range.1,
    {
        assert forall|i: int|
            0 <= i < self.segments@.len() implies (#[trigger] self.segments@[i]).range == ((i
            * self.segment_size as int) as usize, ((i + 1) * self.segment_size as int) as usize,
        ) by {
            assert(self.segments@[i].range.0 == i * self.segment_size as int);
            assert(self.segments@[i].range.1 == (i + 1) * self.segment_size as int);
        }
    }

    /// A copy of the byte contents of every segment's files, ordered by
    /// sequence number: what a recovery from the same directory reads back.
    pub fn files(&self) -> (r: Vec<SegmentFiles>)
        ensures
            r@.len() == self.segments@.len(),
            forall|i: int|
                0 <= i < r@.len() ==> spec_seg_files(self.segments@[i], #[trigger] r@[i]),
    {
        let mut out: Vec<SegmentFiles> = Vec::new();
        let mut i: usize = 0;
        while i < self.segments.len()
            invariant
                0 <= i <= self.segments@.len(),
                out@.len() == i,
                forall|t: int|
                    0 <= t < i ==> spec_seg_files(self.segments@[t], #[trigger] out@[t]),
            decreases self.segments@.len() - i,
        {
            out.push(self.segments[i].files());
            i += 1;
        }
        out
    }
}

} // verus!
