use vstd::prelude::*;
use vstd::bytes::*;
use crate::error::Error;
use crate::message::{push_u64_le, push_i64_le, read_u64_le, read_i64_le, spec_i64_le,
    spec_i64_from_le};

verus! {

/// One fixed-size entry of the timestamp index: the logical offset of a
/// record paired with the timestamp its writer supplied, in nanoseconds.
#[derive(Debug)]
pub struct Index {
    pub offset: usize,
    pub timestamp: i64,
}

impl Index {
    /// The encoding of one entry: the offset as a 64-bit little-endian value,
    /// then the timestamp as a signed 64-bit little-endian value.
    pub open spec fn spec_encode(offset: int, timestamp: int) -> Seq<u8> {
        spec_u64_to_le_bytes(offset as u64) + spec_i64_le(timestamp)
    }

    /// The serialized size of one entry, constant and known ahead of time.
    pub fn size() -> (r: usize)
        ensures
            r == 16,
    {
        16
    }

    /// Serialize one entry.
    pub fn serialize(object: Index) -> (r: Result<Vec<u8>, Error>)
        ensures
            r matches Ok(v) && v@ == Self::spec_encode(
                object.offset as int,
                object.timestamp as int,
            ),
    {
        let mut out: Vec<u8> = Vec::new();
        push_u64_le(&mut out, object.offset as u64);
        push_i64_le(&mut out, object.timestamp);
        Ok(out)
    }

    /// Decode the entry at the front of `buffer`.  Fails exactly when the
    /// buffer is shorter than one entry or the offset does not fit this
    /// machine.
    pub fn deserialize(buffer: &Vec<u8>) -> (r: Result<Index, Error>)
        ensures
            match r {
                Ok(ix) => {
                    &&& buffer@.len() >= 16
                    &&& ix.offset as int == spec_u64_from_le_bytes(buffer@.subrange(0, 8)) as int
                    &&& ix.timestamp as int == spec_i64_from_le(buffer@.subrange(8, 16))
                },
                Err(e) => {
                    &&& e == Error::Serialization
                    &&& (buffer@.len() >= 16 ==> spec_u64_from_le_bytes(buffer@.subrange(0, 8))
                        > usize::MAX)
                },
            },
    {
        if buffer.len() < 16 {
            return Err(Error::Serialization);
        }
        let offset_u = read_u64_le(buffer, 0);
        let timestamp = read_i64_le(buffer, 8);
        if offset_u > usize::MAX as u64 {
            return Err(Error::Serialization);
        }
        Ok(Index { offset: offset_u as usize, timestamp })
    }
}

/// The entries stored in a timestamp index file: one `(offset, timestamp)`
/// pair for each full 16-byte record, in file order.
pub open spec fn spec_entries(d: Seq<u8>) -> Seq<(int, int)> {
    Seq::new(
        (d.len() as int / 16) as nat,
        |i: int|
            (
                spec_u64_from_le_bytes(d.subrange(16 * i, 16 * i + 8)) as int,
                spec_i64_from_le(d.subrange(16 * i + 8, 16 * i + 16)),
            ),
    )
}

/// The offset recorded by the first entry whose timestamp equals `ts`, if
/// any.  Lookups by time use exact-match semantics: the stored nanosecond
/// value must be reproduced exactly, and of several equal timestamps the
/// earliest record wins.
pub open spec fn spec_first_match(es: Seq<(int, int)>, ts: int) -> Option<int>
    decreases es.len(),
{
    if es.len() == 0 {
        None
    } else if es[0].1 == ts {
        Some(es[0].0)
    } else {
        spec_first_match(es.drop_first(), ts)
    }
}

/// If the first `k` entries miss and entry `k` matches, the scan stops at
/// entry `k`.
pub proof fn lemma_first_match_at(es: Seq<(int, int)>, ts: int, k: int)
    requires
        0 <= k < es.len(),
        es[k].1 == ts,
        forall|i: int| 0 <= i < k ==> #[trigger] es[i].1 != ts,
    ensures
        spec_first_match(es, ts) == Some(es[k].0),
    decreases k,
{
    if k > 0 {
        lemma_first_match_at(es.drop_first(), ts, k - 1);
    }
}

/// If no entry matches, the scan misses.
pub proof fn lemma_first_match_none(es: Seq<(int, int)>, ts: int)
    requires
        forall|i: int| 0 <= i < es.len() ==> #[trigger] es[i].1 != ts,
    ensures
        spec_first_match(es, ts) is None,
    decreases es.len(),
{
    if es.len() > 0 {
        lemma_first_match_none(es.drop_first(), ts);
    }
}

/// The append-only file mapping each record's timestamp to its logical
/// offset, in write order.  Same shape as the offset index with a different
/// key domain; additionally answers "most recent entry" without scanning.
pub struct TimestampIndex {
    data: Vec<u8>,
}

impl View for TimestampIndex {
    type V = Seq<u8>;

    closed spec fn view(&self) -> Seq<u8> {
        self.data@
    }
}

impl TimestampIndex {
    /// A fresh, empty index file.
    pub fn new() -> (r: Self)
        ensures
            r@ == Seq::<u8>::empty(),
    {
        TimestampIndex { data: Vec::new() }
    }

    /// Reopen an index from the bytes of an existing file.
    pub fn open(data: Vec<u8>) -> (r: Self)
        ensures
            r@ == data@,
    {
        TimestampIndex { data }
    }

    /// Append one entry at the end of the file.
    pub fn write(&mut self, timestamp: i64, offset: usize) -> (r: Result<(), Error>)
        ensures
            r is Ok,
            final(self)@ == old(self)@ + Index::spec_encode(offset as int, timestamp as int),
            old(self)@.len() % 16 == 0 ==> spec_entries(final(self)@) == spec_entries(
                old(self)@,
            ).push((offset as int, timestamp as int)),
    {
        let entry = Index::serialize(Index { offset, timestamp }).unwrap();
        crate::message::push_bytes(&mut self.data, &entry);
        proof {
            assert(self.data@ =~= old(self)@ + Index::spec_encode(
                offset as int,
                timestamp as int,
            ));
            if old(self)@.len() % 16 == 0 {
                lemma_entries_push(old(self)@, offset as int, timestamp as int);
            }
        }
        Ok(())
    }

    /// Find the offset recorded for `timestamp`: scan for the first entry
    /// whose stored timestamp matches exactly.
    pub fn read(&self, timestamp: i64) -> (r: Result<usize, Error>)
        ensures
            ({
                let m = spec_first_match(spec_entries(self@), timestamp as int);
                match r {
                    Ok(o) => m == Some(o as int),
                    Err(e) => match m {
                        None => e == Error::NotFound,
                        Some(o) => o > usize::MAX && e == Error::Consistency,
                    },
                }
            }),
    {
        let len = self.data.len();
        let n = len / 16;
        proof {
            assert(16 * (len as int / 16) <= len as int) by (nonlinear_arith);
        }
        let ghost es = spec_entries(self@);
        let mut j: usize = 0;
        while j < n
            invariant
                0 <= j <= n,
                len == self@.len(),
                n as int == self@.len() as int / 16,
                16 * (n as int) <= self@.len(),
                es == spec_entries(self@),
                forall|i: int| 0 <= i < j ==> #[trigger] es[i].1 != timestamp as int,
            decreases n - j,
        {
            proof {
                assert(16 * (j as int) + 16 <= 16 * (n as int)) by (nonlinear_arith)
                    requires
                        j + 1 <= n,
                ;
            }
            let stored_ts = read_i64_le(&self.data, 16 * j + 8);
            assert(stored_ts == es[j as int].1);
            if stored_ts == timestamp {
                let offset_u = read_u64_le(&self.data, 16 * j);
                assert(offset_u == es[j as int].0);
                proof {
                    lemma_first_match_at(es, timestamp as int, j as int);
                }
                if offset_u > usize::MAX as u64 {
                    return Err(Error::Consistency);
                }
                return Ok(offset_u as usize);
            }
            j += 1;
        }
        proof {
            lemma_first_match_none(es, timestamp as int);
        }
        Err(Error::NotFound)
    }

    /// The timestamp of the most recent entry: read the last whole record of
    /// the file.
    pub fn latest_timestamp(&self) -> (r: Result<i64, Error>)
        ensures
            ({
                let es = spec_entries(self@);
                match r {
                    Ok(t) => es.len() > 0 && t as int == es[es.len() - 1].1,
                    Err(e) => es.len() == 0 && e == Error::NotFound,
                }
            }),
    {
        let len = self.data.len();
        let n = len / 16;
        proof {
            assert(16 * (len as int / 16) <= len as int) by (nonlinear_arith);
        }
        if n == 0 {
            return Err(Error::NotFound);
        }
        proof {
            assert(16 * (n as int - 1) + 16 <= 16 * (n as int)) by (nonlinear_arith);
        }
        let t = read_i64_le(&self.data, 16 * (n - 1) + 8);
        assert(t == spec_entries(self@)[n - 1].1);
        Ok(t)
    }


    /// The raw bytes of the index file.
    pub fn bytes(&self) -> (r: &Vec<u8>)
        ensures
            r@ == self@,
    {
        &self.data
    }

    /// The number of whole entries the file holds.
    pub fn size(&self) -> (r: Result<usize, Error>)
        ensures
            r matches Ok(n) && n as int == self@.len() as int / 16,
    {
        Ok(self.data.len() / Index::size())
    }
}

/// Appending one whole entry to a whole-entry file appends one parsed pair.
proof fn lemma_entries_push(d: Seq<u8>, offset: int, timestamp: int)
    requires
        d.len() % 16 == 0,
        0 <= offset <= usize::MAX,
        i64::MIN <= timestamp <= i64::MAX,
    ensures
        spec_entries(d + Index::spec_encode(offset, timestamp)) == spec_entries(d).push(
            (offset, timestamp),
        ),
{
    lemma_auto_spec_u64_to_from_le_bytes();
    let e = Index::spec_encode(offset, timestamp);
    let d2 = d + e;
    let n = d.len() as int / 16;
    assert(16 * n == d.len()) by (nonlinear_arith)
        requires
            n == d.len() as int / 16,
            d.len() % 16 == 0,
    ;
    assert(d2.len() as int / 16 == n + 1) by (nonlinear_arith)
        requires
            d2.len() == d.len() + 16,
            16 * n == d.len(),
    ;
    assert forall|i: int| 0 <= i < n implies #[trigger] spec_entries(d2)[i] == spec_entries(
        d,
    )[i] by {
        assert(16 * i + 16 <= 16 * n) by (nonlinear_arith)
            requires
                i + 1 <= n,
        ;
        assert(d2.subrange(16 * i, 16 * i + 8) =~= d.subrange(16 * i, 16 * i + 8));
        assert(d2.subrange(16 * i + 8, 16 * i + 16) =~= d.subrange(16 * i + 8, 16 * i + 16));
    }
    assert(d2.subrange(16 * n, 16 * n + 8) =~= e.subrange(0, 8));
    assert(d2.subrange(16 * n + 8, 16 * n + 16) =~= e.subrange(8, 16));
    assert(e.subrange(0, 8) =~= spec_u64_to_le_bytes(offset as u64));
    assert(e.subrange(8, 16) =~= spec_i64_le(timestamp));
    crate::message::lemma_i64_le_round_trip(timestamp);
    assert(spec_entries(d2)[n] == (offset, timestamp));
    assert(spec_entries(d2) =~= spec_entries(d).push((offset, timestamp)));
}

} // verus!
