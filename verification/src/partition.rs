use vstd::prelude::*;
use vstd::arithmetic::div_mod::{lemma_fundamental_div_mod, lemma_fundamental_div_mod_converse};
use crate::message::{Message, MessageView, RawData, copy_message};

verus! {

/// The fixed number of messages each in-memory segment may hold.
pub const SEGMENT_CAPACITY: usize = 1000;

/// A bounded, contiguous slice of logical-offset space held directly in
/// memory: the prototype counterpart of the file-backed segment, with the
/// same range discipline but no persistence.
pub struct InMemorySegment {
    /// First logical offset this segment may hold.
    pub start: usize,
    /// One past the last logical offset this segment may hold.
    pub end: usize,
    /// The stored messages, in offset order.
    pub data: Vec<Message>,
}

impl InMemorySegment {
    /// The segment invariant: a fixed-capacity half-open range, filled
    /// densely from `start`.
    pub open spec fn wf(self) -> bool {
        &&& self.end == self.start + SEGMENT_CAPACITY
        &&& self.data@.len() <= SEGMENT_CAPACITY
        &&& forall|j: int|
            0 <= j < self.data@.len() ==> (#[trigger] self.data@[j]).offset == self.start + j
    }

    /// An empty segment for the offsets `[start, start + SEGMENT_CAPACITY)`.
    pub fn new(start: usize) -> (r: Self)
        requires
            start + SEGMENT_CAPACITY <= usize::MAX,
        ensures
            r.wf(),
            r.start == start,
            r.end == start + SEGMENT_CAPACITY,
            r.data@ == Seq::<Message>::empty(),
    {
        Self { start, end: start + SEGMENT_CAPACITY, data: Vec::with_capacity(SEGMENT_CAPACITY) }
    }

    /// The first offset of this segment's range.
    pub fn start_offset(&self) -> (r: usize)
        ensures
            r == self.start,
    {
        self.start
    }

    /// One past the last offset of this segment's range.
    pub fn end_offset(&self) -> (r: usize)
        ensures
            r == self.end,
    {
        self.end
    }

    /// The record at `offset`, if this segment stores one.
    pub fn read(&self, offset: usize) -> (r: Option<Message>)
        ensures
            if offset < self.start {
                r is None
            } else if offset - self.start < self.data@.len() {
                r matches Some(m) && m@ == self.data@[offset - self.start]@
            } else {
                r is None
            },
    {
        if offset < self.start {
            return None;
        }
        let index = offset - self.start;
        if index < self.data.len() {
            Some(copy_message(&self.data[index]))
        } else {
            None
        }
    }

    /// Append one record, provided its offset lies in this segment's range;
    /// sequential append discipline makes an in-range offset the next dense
    /// one.  Returns the offset stored, or nothing for an out-of-range
    /// record.
    pub fn write(&mut self, msg: Message) -> (r: Option<usize>)
        requires
            old(self).start <= msg.offset < old(self).end ==> msg.offset == old(self).start + old(
                self,
            ).data@.len(),
        ensures
            if old(self).start <= msg.offset < old(self).end {
                &&& r == Some(msg.offset)
                &&& final(self).data@ == old(self).data@.push(msg)
                &&& final(self).start == old(self).start
                &&& final(self).end == old(self).end
            } else {
                &&& r is None
                &&& *final(self) == *old(self)
            },
    {
        if msg.offset < self.start || msg.offset >= self.end {
            return None;
        }
        let offset = msg.offset;
        self.data.push(msg);
        Some(offset)
    }

    /// The number of records currently stored.
    pub fn len(&self) -> (r: usize)
        ensures
            r == self.data@.len(),
    {
        self.data.len()
    }
}

/// An in-memory prototype of the partition: the same offset-assignment and
/// rotation rules as the file-backed store, without persistence.
pub struct Partition {
    /// The segments, ordered by ascending range; only ever grown at the end.
    pub segments: Vec<InMemorySegment>,
    /// The number of records stored, which is also the next offset assigned.
    pub size: usize,
}

impl Partition {
    /// The partition invariant, mirroring the file-backed store with the
    /// fixed capacity `SEGMENT_CAPACITY`.
    pub open spec fn wf(self) -> bool {
        let cap = SEGMENT_CAPACITY as int;
        let k = self.segments@.len() as int;
        &&& k >= 1
        &&& k * cap <= usize::MAX
        &&& forall|i: int|
            #![trigger self.segments@[i]]
            0 <= i < k ==> {
                &&& self.segments@[i].wf()
                &&& self.segments@[i].start == i * cap
                &&& (i < k - 1 ==> self.segments@[i].data@.len() == cap)
            }
        &&& self.size as int == (k - 1) * cap + self.segments@[k - 1].data@.len() as int
    }

    /// The record stored at logical offset `o`.
    pub open spec fn message_at(self, o: int) -> MessageView {
        self.segments@[o / (SEGMENT_CAPACITY as int)].data@[o % (SEGMENT_CAPACITY as int)]@
    }

    /// Every offset below `size` names exactly one stored slot.
    proof fn lemma_offset_slot(self, o: int)
        requires
            self.wf(),
            0 <= o < self.size,
        ensures
            ({
                let cap = SEGMENT_CAPACITY as int;
                let i = o / cap;
                let r = o % cap;
                &&& 0 <= i < self.segments@.len()
                &&& 0 <= r < cap
                &&& o == i * cap + r
                &&& r < self.segments@[i].data@.len()
            }),
    {
        let cap = SEGMENT_CAPACITY as int;
        let k = self.segments@.len() as int;
        let i = o / cap;
        let r = o % cap;
        lemma_fundamental_div_mod(o, cap);
        assert(0 <= r < cap) by (nonlinear_arith)
            requires
                cap >= 1,
                r == o % cap,
        ;
        assert(0 <= i) by (nonlinear_arith)
            requires
                o >= 0,
                0 <= r < cap,
                o == cap * i + r,
        ;
        assert(self.size as int <= k * cap) by (nonlinear_arith)
            requires
                self.size as int == (k - 1) * cap + self.segments@[k - 1].data@.len(),
                self.segments@[k - 1].data@.len() <= cap,
        ;
        assert(i < k) by (nonlinear_arith)
            requires
                o == cap * i + r,
                0 <= r < cap,
                o < k * cap,
        ;
        if i == k - 1 {
            assert(r < self.segments@[k - 1].data@.len()) by (nonlinear_arith)
                requires
                    o == cap * (k - 1) + r,
                    o < (k - 1) * cap + self.segments@[k - 1].data@.len(),
            ;
        }
    }

    /// A fresh, empty partition: one empty segment at offset zero.
    pub fn new() -> (r: Self)
        ensures
            r.wf(),
            r.size == 0,
            r.segments@.len() == 1,
    {
        let mut segments: Vec<InMemorySegment> = Vec::new();
        segments.push(InMemorySegment::new(0));
        Self { segments, size: 0 }
    }

    /// Accept one write: the record receives offset `size`, goes to the
    /// active (last) segment — after rotating in a fresh segment whose range
    /// starts at the previous end, when the active one is full — and `size`
    /// advances.
    pub fn write(&mut self, timestamp: i64, key: Option<RawData>, value: RawData) -> (r: Result<
        (),
        String,
    >)
        requires
            old(self).wf(),
            old(self).size + SEGMENT_CAPACITY <= usize::MAX,
        ensures
            r is Ok,
            final(self).wf(),
            final(self).size == old(self).size + 1,
            final(self).message_at(old(self).size as int) == (MessageView {
                offset: old(self).size as int,
                size: value@.len() as int,
                timestamp: timestamp as int,
                key: match key {
                    Some(k) => Some(k@),
                    None => None::<Seq<u8>>,
                },
                value: value@,
            }),
            forall|o: int|
                0 <= o < old(self).size ==> final(self).message_at(o) == old(self).message_at(o),
            final(self).segments@.len() == if old(self).size as int == old(self).segments@.len()
                * (SEGMENT_CAPACITY as int) {
                old(self).segments@.len() as int + 1
            } else {
                old(self).segments@.len() as int
            },
    {
        let message = Message::new(self.size, timestamp, key, value);
        let ghost mv = message@;
        let ghost pre = *self;
        let ghost cap = SEGMENT_CAPACITY as int;
        let ghost kk = self.segments@.len() as int;
        proof {
            assert(kk * cap == (kk - 1) * cap + cap && (kk + 1) * cap == kk * cap + cap) by (
            nonlinear_arith);
        }
        let k = self.segments.len();
        let mut seg = self.segments.pop().unwrap();
        let seg_len = seg.len();
        if seg_len < SEGMENT_CAPACITY {
            self.size = self.size + 1;
            match seg.write(message) {
                Some(_) => {
                    self.segments.push(seg);
                    proof {
                        assert(self.segments@ =~= pre.segments@.update(
                            kk - 1,
                            self.segments@[kk - 1],
                        ));
                        assert(self.wf());
                        crate::storage::partition::Partition::lemma_slot_offset(
                            cap,
                            kk - 1,
                            seg_len as int,
                        );
                        assert(self.message_at(pre.size as int) == mv);
                        assert forall|o: int| 0 <= o < pre.size implies self.message_at(o)
                            == pre.message_at(o) by {
                            pre.lemma_offset_slot(o);
                        }
                    }
                    Ok(())
                },
                None => Err("failed to write".to_owned()),
            }
        } else {
            // The active segment is full: rotate to a new segment that
            // starts where the previous range ends.
            self.segments.push(seg);
            proof {
                assert(self.segments@ =~= pre.segments@);
                assert(pre.size as int == kk * cap);
                assert((kk + 1) * cap <= usize::MAX);
            }
            let mut seg2 = InMemorySegment::new(self.size);
            self.size = self.size + 1;
            match seg2.write(message) {
                Some(_) => {
                    self.segments.push(seg2);
                    proof {
                        assert(self.segments@.len() == kk + 1);
                        assert(self.segments@ =~= pre.segments@.push(self.segments@[kk]));
                        assert(self.segments@[kk].data@ =~= Seq::<Message>::empty().push(
                            self.segments@[kk].data@[0],
                        ));
                        assert(self.wf());
                        crate::storage::partition::Partition::lemma_slot_offset(cap, kk, 0);
                        assert(self.message_at(pre.size as int) == mv);
                        assert forall|o: int| 0 <= o < pre.size implies self.message_at(o)
                            == pre.message_at(o) by {
                            pre.lemma_offset_slot(o);
                        }
                    }
                    Ok(())
                },
                None => Err("failed to write".to_owned()),
            }
        }
    }

    /// Fetch the record at logical offset `offset` by scanning the ordered
    /// segment list for the range that contains it.  An offset at or past
    /// `size` never yields a stray or default record.
    #[verifier::rlimit(50)]
    pub fn read(&self, offset: usize) -> (r: Result<Message, String>)
        requires
            self.wf(),
        ensures
            offset < self.size ==> (r matches Ok(m) && m@ == self.message_at(offset as int)),
            offset >= self.size ==> (r matches Err(e) && e@ == (if (offset as int)
                < self.segments@.len() * (SEGMENT_CAPACITY as int) {
                "message not found at this offset"@
            } else {
                "offset out of bounds"@
            })),
    {
        let ghost cap = SEGMENT_CAPACITY as int;
        let ghost kk = self.segments@.len() as int;
        let ghost o = offset as int;
        let k = self.segments.len();
        let mut i: usize = 0;
        while i < k
            invariant
                self.wf(),
                0 <= i <= k,
                k == self.segments@.len(),
                kk == k as int,
                o == offset as int,
                cap == SEGMENT_CAPACITY as int,
                forall|t: int|
                    0 <= t < i ==> !((#[trigger] self.segments@[t]).start <= offset
                        < self.segments@[t].end),
            decreases k - i,
        {
            let seg = &self.segments[i];
            if offset >= seg.start_offset() && offset < seg.end_offset() {
                proof {
                    assert((i as int + 1) * cap == i as int * cap + cap) by (nonlinear_arith);
                    lemma_fundamental_div_mod_converse(o, cap, i as int, o - i as int * cap);
                    if o < self.size {
                        self.lemma_offset_slot(o);
                    } else {
                        if (i as int) < kk - 1 {
                            assert((i as int + 1) * cap <= (kk - 1) * cap) by (nonlinear_arith)
                                requires
                                    cap >= 1,
                                    i as int + 1 <= kk - 1,
                            ;
                            assert((kk - 1) * cap <= self.size);
                            assert(false);
                        }
                    }
                }
                return match seg.read(offset) {
                    Some(message) => Ok(message),
                    None => Err("message not found at this offset".to_owned()),
                };
            }
            i += 1;
        }
        Err("offset out of bounds".to_owned())
    }
}

} // verus!
