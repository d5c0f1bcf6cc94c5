use vstd::prelude::*;
use vstd::bytes::*;
use crate::error::Error;
use crate::message::{push_u64_le, read_u64_le};

verus! {

/// One fixed-size entry of the offset index: the logical offset of a record
/// paired with the physical byte position of that record in the log file.
#[derive(Debug)]
pub struct Index {
    pub logical: usize,
    pub physical: usize,
}

impl Index {
    /// The encoding of one entry: both fields as 64-bit little-endian values.
    pub open spec fn spec_encode(logical: int, physical: int) -> Seq<u8> {
        spec_u64_to_le_bytes(logical as u64) + spec_u64_to_le_bytes(physical as u64)
    }

    /// The serialized size of one entry, constant and known ahead of time;
    /// it permits position arithmetic over the index file.
    pub fn size() -> (r: usize)
        ensures
            r == 16,
    {
        16
    }

    /// Serialize one entry.
    pub fn serialize(index: Index) -> (r: Result<Vec<u8>, Error>)
        ensures
            r matches Ok(v) && v@ == Self::spec_encode(index.logical as int, index.physical as int),
    {
        let mut out: Vec<u8> = Vec::new();
        push_u64_le(&mut out, index.logical as u64);
        push_u64_le(&mut out, index.physical as u64);
        Ok(out)
    }

    /// Decode the entry at the front of `buffer`.  Fails exactly when the
    /// buffer is shorter than one entry or a field does not fit this machine.
    pub fn deserialize(buffer: &Vec<u8>) -> (r: Result<Index, Error>)
        ensures
            match r {
                Ok(ix) => {
                    &&& buffer@.len() >= 16
                    &&& ix.logical as int == spec_u64_from_le_bytes(buffer@.subrange(0, 8)) as int
                    &&& ix.physical as int == spec_u64_from_le_bytes(buffer@.subrange(8, 16)) as int
                },
                Err(e) => {
                    &&& e == Error::Serialization
                    &&& (buffer@.len() >= 16 ==> spec_u64_from_le_bytes(buffer@.subrange(0, 8))
                        > usize::MAX || spec_u64_from_le_bytes(buffer@.subrange(8, 16))
                        > usize::MAX)
                },
            },
    {
        if buffer.len() < 16 {
            return Err(Error::Serialization);
        }
        let logical_u = read_u64_le(buffer, 0);
        let physical_u = read_u64_le(buffer, 8);
        if logical_u > usize::MAX as u64 || physical_u > usize::MAX as u64 {
            return Err(Error::Serialization);
        }
        Ok(Index { logical: logical_u as usize, physical: physical_u as usize })
    }
}

/// The entries stored in an index file: one pair for each full 16-byte
/// record, in file order.  A trailing partial record is ignored.
pub open spec fn spec_entries(d: Seq<u8>) -> Seq<(int, int)> {
    Seq::new(
        (d.len() as int / 16) as nat,
        |i: int|
            (
                spec_u64_from_le_bytes(d.subrange(16 * i, 16 * i + 8)) as int,
                spec_u64_from_le_bytes(d.subrange(16 * i + 8, 16 * i + 16)) as int,
            ),
    )
}

/// What a dense-addressed lookup returns, as a function of the entries and
/// the requested logical offset.  The candidate position is computed from the
/// first entry's key; the key stored there must confirm the request, and a
/// mismatch is corruption, not an occasion to scan.
pub open spec fn spec_read(es: Seq<(int, int)>, logical: int) -> Result<int, Error> {
    if es.len() == 0 {
        Err(Error::NotFound)
    } else if logical < es[0].0 || logical - es[0].0 >= es.len() {
        Err(Error::NotFound)
    } else if es[logical - es[0].0].0 != logical {
        Err(Error::Consistency)
    } else if es[logical - es[0].0].1 > usize::MAX {
        Err(Error::Consistency)
    } else {
        Ok(es[logical - es[0].0].1)
    }
}

/// The append-only file mapping each logical offset of one segment to the
/// physical byte position of its record in the segment's log file.
///
/// Entries are written in strictly increasing, dense key order — an invariant
/// upheld entirely by the segment's write discipline, not by the index — so a
/// lookup addresses its candidate entry directly instead of scanning.
pub struct OffsetIndex {
    data: Vec<u8>,
}

impl View for OffsetIndex {
    type V = Seq<u8>;

    closed spec fn view(&self) -> Seq<u8> {
        self.data@
    }
}

impl OffsetIndex {
    /// A fresh, empty index file.
    pub fn new() -> (r: Self)
        ensures
            r@ == Seq::<u8>::empty(),
    {
        OffsetIndex { data: Vec::new() }
    }

    /// Reopen an index from the bytes of an existing file.
    pub fn open(data: Vec<u8>) -> (r: Self)
        ensures
            r@ == data@,
    {
        OffsetIndex { data }
    }

    /// Append one entry at the end of the file.
    pub fn write(&mut self, logical: usize, physical: usize) -> (r: Result<(), Error>)
        ensures
            r is Ok,
            final(self)@ == old(self)@ + Index::spec_encode(logical as int, physical as int),
            old(self)@.len() % 16 == 0 ==> spec_entries(final(self)@) == spec_entries(
                old(self)@,
            ).push((logical as int, physical as int)),
    {
        let entry = Index::serialize(Index { logical, physical }).unwrap();
        crate::message::push_bytes(&mut self.data, &entry);
        proof {
            assert(self.data@ =~= old(self)@ + Index::spec_encode(
                logical as int,
                physical as int,
            ));
            if old(self)@.len() % 16 == 0 {
                lemma_entries_push(old(self)@, logical as int, physical as int);
            }
        }
        Ok(())
    }

    /// Find the physical position recorded for `logical`: seek directly to
    /// the candidate entry, confirm its stored key, and return its value.
    pub fn read(&self, logical: usize) -> (r: Result<usize, Error>)
        ensures
            ({
                let s = spec_read(spec_entries(self@), logical as int);
                match r {
                    Ok(p) => s == Ok::<int, Error>(p as int),
                    Err(e) => s == Err::<int, Error>(e),
                }
            }),
    {
        let len = self.data.len();
        let n = len / 16;
        proof {
            assert(16 * (len as int / 16) <= len as int) by (nonlinear_arith);
        }
        if n == 0 {
            return Err(Error::NotFound);
        }
        let ghost es = spec_entries(self@);
        let base = read_u64_le(&self.data, 0);
        assert(base == es[0].0);
        if (logical as u64) < base {
            return Err(Error::NotFound);
        }
        let c = logical - (base as usize);
        if c >= n {
            return Err(Error::NotFound);
        }
        proof {
            assert(16 * (c as int) + 16 <= 16 * (len as int / 16)) by (nonlinear_arith)
                requires
                    c as int <= len as int / 16 - 1,
            ;
        }
        let stored = read_u64_le(&self.data, 16 * c);
        assert(stored == es[c as int].0);
        if stored != logical as u64 {
            return Err(Error::Consistency);
        }
        let phys = read_u64_le(&self.data, 16 * c + 8);
        assert(phys == es[c as int].1);
        if phys > usize::MAX as u64 {
            return Err(Error::Consistency);
        }
        Ok(phys as usize)
    }


    /// The raw bytes of the index file.
    pub fn bytes(&self) -> (r: &Vec<u8>)
        ensures
            r@ == self@,
    {
        &self.data
    }

    /// The number of whole entries the file holds.
    pub fn size(&self) -> (r: Result<usize, Error>)
        ensures
            r matches Ok(n) && n as int == self@.len() as int / 16,
    {
        Ok(self.data.len() / Index::size())
    }
}

/// Appending one whole entry to a whole-entry file appends one parsed pair.
proof fn lemma_entries_push(d: Seq<u8>, logical: int, physical: int)
    requires
        d.len() % 16 == 0,
        0 <= logical <= usize::MAX,
        0 <= physical <= usize::MAX,
    ensures
        spec_entries(d + Index::spec_encode(logical, physical)) == spec_entries(d).push(
            (logical, physical),
        ),
{
    lemma_auto_spec_u64_to_from_le_bytes();
    let e = Index::spec_encode(logical, physical);
    let d2 = d + e;
    let n = d.len() as int / 16;
    assert(16 * n == d.len()) by (nonlinear_arith)
        requires
            n == d.len() as int / 16,
            d.len() % 16 == 0,
    ;
    assert(d2.len() as int / 16 == n + 1) by (nonlinear_arith)
        requires
            d2.len() == d.len() + 16,
            16 * n == d.len(),
    ;
    assert forall|i: int| 0 <= i < n implies #[trigger] spec_entries(d2)[i] == spec_entries(
        d,
    )[i] by {
        assert(16 * i + 16 <= 16 * n) by (nonlinear_arith)
            requires
                i + 1 <= n,
        ;
        assert(d2.subrange(16 * i, 16 * i + 8) =~= d.subrange(16 * i, 16 * i + 8));
        assert(d2.subrange(16 * i + 8, 16 * i + 16) =~= d.subrange(16 * i + 8, 16 * i + 16));
    }
    assert(d2.subrange(16 * n, 16 * n + 8) =~= e.subrange(0, 8));
    assert(d2.subrange(16 * n + 8, 16 * n + 16) =~= e.subrange(8, 16));
    assert(e.subrange(0, 8) =~= spec_u64_to_le_bytes(logical as u64));
    assert(e.subrange(8, 16) =~= spec_u64_to_le_bytes(physical as u64));
    assert(spec_entries(d2)[n] == (logical, physical));
    assert(spec_entries(d2) =~= spec_entries(d).push((logical, physical)));
}

} // verus!
