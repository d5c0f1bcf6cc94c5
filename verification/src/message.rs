use vstd::prelude::*;
use vstd::bytes::*;
use vstd::slice::*;
use crate::error::Error;

verus! {

/// An opaque byte payload: a record key or a record value.
pub type RawData = Vec<u8>;

/// A single immutable record of the log.
///
/// A message is constructed once, at the moment a write is accepted, and is
/// never mutated afterwards.  `offset` is assigned by the partition that owns
/// the record; `size` always equals the byte length of `value`; `timestamp`
/// is supplied by the writer, in nanoseconds since the Unix epoch.
#[derive(Debug, Clone)]
pub struct Message {
    pub offset: usize,
    pub size: usize,
    pub timestamp: i64,
    pub key: Option<RawData>,
    pub value: RawData,
}

/// The mathematical shape of a message, used by every contract of the store.
#[verifier::ext_equal]
pub struct MessageView {
    pub offset: int,
    pub size: int,
    pub timestamp: int,
    pub key: Option<Seq<u8>>,
    pub value: Seq<u8>,
}

impl View for Message {
    type V = MessageView;

    open spec fn view(&self) -> MessageView {
        MessageView {
            offset: self.offset as int,
            size: self.size as int,
            timestamp: self.timestamp as int,
            key: match self.key {
                Some(k) => Some(k@),
                None => None,
            },
            value: self.value@,
        }
    }
}

/// The numeric ranges a message view must respect so that it can be held in a
/// `Message` and encoded with fixed-width 64-bit fields.
pub open spec fn msg_wf(m: MessageView) -> bool {
    &&& 0 <= m.offset <= usize::MAX
    &&& 0 <= m.size <= usize::MAX
    &&& i64::MIN <= m.timestamp <= i64::MAX
    &&& (m.key matches Some(k) ==> k.len() <= usize::MAX)
    &&& m.value.len() <= usize::MAX
}

impl Message {
    /// Build the record that a write at `offset` persists.  `size` is derived
    /// from the payload, never supplied by the caller.
    pub fn new(offset: usize, timestamp: i64, key: Option<RawData>, value: RawData) -> (m: Message)
        ensures
            m@ == (MessageView {
                offset: offset as int,
                size: value@.len() as int,
                timestamp: timestamp as int,
                key: match key {
                    Some(k) => Some(k@),
                    None => None::<Seq<u8>>,
                },
                value: value@,
            }),
    {
        let size = value.len();
        Message { offset, size, timestamp, key, value }
    }
}

/// The little-endian encoding of a signed 64-bit value, as its two's
/// complement bit pattern.
pub open spec fn spec_i64_le(t: int) -> Seq<u8> {
    if t >= 0 {
        spec_u64_to_le_bytes(t as u64)
    } else {
        spec_u64_to_le_bytes((t + 0x1_0000_0000_0000_0000) as u64)
    }
}

/// The signed 64-bit value read back from eight little-endian bytes.
pub open spec fn spec_i64_from_le(s: Seq<u8>) -> int {
    let u = spec_u64_from_le_bytes(s);
    if u < 0x8000_0000_0000_0000 {
        u as int
    } else {
        u - 0x1_0000_0000_0000_0000
    }
}

/// The encoding of an optional key: a presence byte, then, when present, a
/// 64-bit little-endian length followed by the key bytes.
pub open spec fn spec_encode_key(key: Option<Seq<u8>>) -> Seq<u8> {
    match key {
        None => seq![0u8],
        Some(k) => seq![1u8] + spec_u64_to_le_bytes(k.len() as u64) + k,
    }
}

/// The serialized form of a message: five fields in declaration order, every
/// integer and length as a 64-bit little-endian value, the value bytes
/// length-prefixed at the end.
pub open spec fn spec_encode_message(m: MessageView) -> Seq<u8> {
    spec_u64_to_le_bytes(m.offset as u64) + spec_u64_to_le_bytes(m.size as u64) + spec_i64_le(
        m.timestamp,
    ) + spec_encode_key(m.key) + spec_u64_to_le_bytes(m.value.len() as u64) + m.value
}

/// The decoder for `spec_encode_message`: `Some` exactly when the bytes are
/// the serialized form of one message with nothing left over.
pub open spec fn spec_decode_message(b: Seq<u8>) -> Option<MessageView> {
    if b.len() < 25 {
        None
    } else {
        let offset = spec_u64_from_le_bytes(b.subrange(0, 8)) as int;
        let size = spec_u64_from_le_bytes(b.subrange(8, 16)) as int;
        let timestamp = spec_i64_from_le(b.subrange(16, 24));
        if b[24] == 1u8 {
            if b.len() < 33 {
                None
            } else {
                let klen = spec_u64_from_le_bytes(b.subrange(25, 33)) as int;
                if b.len() < 41 + klen {
                    None
                } else {
                    let vlen = spec_u64_from_le_bytes(b.subrange(33 + klen, 41 + klen)) as int;
                    if b.len() == 41 + klen + vlen {
                        Some(MessageView {
                            offset,
                            size,
                            timestamp,
                            key: Some(b.subrange(33, 33 + klen)),
                            value: b.subrange(41 + klen, b.len() as int),
                        })
                    } else {
                        None
                    }
                }
            }
        } else if b[24] == 0u8 {
            if b.len() < 33 {
                None
            } else {
                let vlen = spec_u64_from_le_bytes(b.subrange(25, 33)) as int;
                if b.len() == 33 + vlen {
                    Some(MessageView {
                        offset,
                        size,
                        timestamp,
                        key: None,
                        value: b.subrange(33, b.len() as int),
                    })
                } else {
                    None
                }
            }
        } else {
            None
        }
    }
}

/// Whether the integer fields of a decoded view fit the machine's `usize`, so
/// that the view can be realized as a `Message`.
pub open spec fn msg_fits(m: MessageView) -> bool {
    &&& m.offset <= usize::MAX
    &&& m.size <= usize::MAX
}

/// Round trip at the record-format level: decoding the serialized form of any
/// well-formed message view yields exactly that view.
pub proof fn lemma_message_round_trip(m: MessageView)
    requires
        msg_wf(m),
    ensures
        spec_decode_message(spec_encode_message(m)) == Some(m),
{
    lemma_auto_spec_u64_to_from_le_bytes();
    let b = spec_encode_message(m);
    match m.key {
        Some(k) => {
            let klen = k.len() as int;
            let vlen = m.value.len() as int;
            assert(b.len() == 41 + klen + vlen);
            assert(b.subrange(0, 8) =~= spec_u64_to_le_bytes(m.offset as u64));
            assert(b.subrange(8, 16) =~= spec_u64_to_le_bytes(m.size as u64));
            assert(b.subrange(16, 24) =~= spec_i64_le(m.timestamp));
            assert(b[24] == 1u8);
            assert(b.subrange(25, 33) =~= spec_u64_to_le_bytes(k.len() as u64));
            assert(b.subrange(33, 33 + klen) =~= k);
            assert(b.subrange(33 + klen, 41 + klen) =~= spec_u64_to_le_bytes(
                m.value.len() as u64,
            ));
            assert(b.subrange(41 + klen, b.len() as int) =~= m.value);
            lemma_i64_le_round_trip(m.timestamp);
            assert(spec_decode_message(b) matches Some(d) && d =~= m);
        },
        None => {
            let vlen = m.value.len() as int;
            assert(b.len() == 33 + vlen);
            assert(b.subrange(0, 8) =~= spec_u64_to_le_bytes(m.offset as u64));
            assert(b.subrange(8, 16) =~= spec_u64_to_le_bytes(m.size as u64));
            assert(b.subrange(16, 24) =~= spec_i64_le(m.timestamp));
            assert(b[24] == 0u8);
            assert(b.subrange(25, 33) =~= spec_u64_to_le_bytes(m.value.len() as u64));
            assert(b.subrange(33, b.len() as int) =~= m.value);
            lemma_i64_le_round_trip(m.timestamp);
            assert(spec_decode_message(b) matches Some(d) && d =~= m);
        },
    }
}

/// Round trip for the signed 64-bit field encoding.
pub proof fn lemma_i64_le_round_trip(t: int)
    requires
        i64::MIN <= t <= i64::MAX,
    ensures
        spec_i64_from_le(spec_i64_le(t)) == t,
{
    lemma_auto_spec_u64_to_from_le_bytes();
}

/// Learn that the byte payloads of a message fit this machine: their lengths
/// are observable as `usize` values.
pub(crate) fn msg_bounds(m: &Message)
    ensures
        msg_wf(m@),
{
    let _value_len: usize = m.value.len();
    match &m.key {
        Some(k) => {
            let _key_len: usize = k.len();
        },
        None => {},
    }
}

/// Append the little-endian bytes of `v` to `out`.
pub(crate) fn push_u64_le(out: &mut Vec<u8>, v: u64)
    ensures
        final(out)@ == old(out)@ + spec_u64_to_le_bytes(v),
{
    let bytes = u64_to_le_bytes(v);
    push_bytes(out, &bytes);
}

/// Append the two's complement little-endian bytes of `t` to `out`.
pub(crate) fn push_i64_le(out: &mut Vec<u8>, t: i64)
    ensures
        final(out)@ == old(out)@ + spec_i64_le(t as int),
{
    let u: u64 = if t >= 0 {
        t as u64
    } else {
        let neg: i64 = -(t + 1);
        u64::MAX - (neg as u64)
    };
    assert(u == if t >= 0 {
        t as int
    } else {
        t + 0x1_0000_0000_0000_0000
    });
    push_u64_le(out, u);
}

/// Append a copy of `src` to `out`.
pub(crate) fn push_bytes(out: &mut Vec<u8>, src: &Vec<u8>)
    ensures
        final(out)@ == old(out)@ + src@,
{
    let mut i: usize = 0;
    while i < src.len()
        invariant
            i <= src.len(),
            out@ == old(out)@ + src@.take(i as int),
        decreases src.len() - i,
    {
        out.push(src[i]);
        proof {
            assert(src@.take(i + 1) =~= src@.take(i as int).push(src@[i as int]));
        }
        i += 1;
    }
    proof {
        assert(src@.take(src@.len() as int) =~= src@);
    }
}

/// A fresh copy of a byte vector.
pub(crate) fn clone_bytes(v: &Vec<u8>) -> (r: Vec<u8>)
    ensures
        r@ == v@,
{
    let mut out: Vec<u8> = Vec::new();
    push_bytes(&mut out, v);
    out
}

/// A fresh copy of a message, equal to the original in every field.
pub(crate) fn copy_message(m: &Message) -> (r: Message)
    ensures
        r@ == m@,
{
    Message {
        offset: m.offset,
        size: m.size,
        timestamp: m.timestamp,
        key: match &m.key {
            Some(k) => Some(clone_bytes(k)),
            None => None,
        },
        value: clone_bytes(&m.value),
    }
}

/// Serialize one message into the byte form that the log file stores.
pub fn serialize_message(m: &Message) -> (r: Vec<u8>)
    ensures
        r@ == spec_encode_message(m@),
{
    let mut out: Vec<u8> = Vec::new();
    push_u64_le(&mut out, m.offset as u64);
    push_u64_le(&mut out, m.size as u64);
    push_i64_le(&mut out, m.timestamp);
    match &m.key {
        Some(k) => {
            out.push(1u8);
            proof {
                assert(seq![1u8] =~= Seq::<u8>::empty().push(1u8));
            }
            push_u64_le(&mut out, k.len() as u64);
            push_bytes(&mut out, k);
        },
        None => {
            out.push(0u8);
            proof {
                assert(seq![0u8] =~= Seq::<u8>::empty().push(0u8));
            }
        },
    }
    push_u64_le(&mut out, m.value.len() as u64);
    push_bytes(&mut out, &m.value);
    proof {
        assert(out@ =~= spec_encode_message(m@));
    }
    out
}

/// Read the unsigned 64-bit little-endian field at `pos`.
pub(crate) fn read_u64_le(b: &Vec<u8>, pos: usize) -> (r: u64)
    requires
        pos + 8 <= b@.len(),
    ensures
        r == spec_u64_from_le_bytes(b@.subrange(pos as int, pos as int + 8)),
{
    let n = b.len();
    assert(pos + 8 <= n);
    let s = slice_subrange(b.as_slice(), pos, pos + 8);
    u64_from_le_bytes(s)
}

/// Read the signed 64-bit little-endian field at `pos`.
pub(crate) fn read_i64_le(b: &Vec<u8>, pos: usize) -> (r: i64)
    requires
        pos + 8 <= b@.len(),
    ensures
        r == spec_i64_from_le(b@.subrange(pos as int, pos as int + 8)),
{
    let u = read_u64_le(b, pos);
    if u <= 0x7fff_ffff_ffff_ffff {
        u as i64
    } else {
        -((u64::MAX - u) as i64) - 1
    }
}

/// Copy `len` bytes of `b` starting at `start` into a fresh vector.
pub(crate) fn copy_range(b: &Vec<u8>, start: usize, len: usize) -> (r: Vec<u8>)
    requires
        start + len <= b@.len(),
    ensures
        r@ == b@.subrange(start as int, start as int + len as int),
{
    let n = b.len();
    assert(start + len <= n);
    slice_to_vec(slice_subrange(b.as_slice(), start, start + len))
}

/// Decode one serialized message.  Succeeds exactly when the bytes are the
/// serialized form of one message whose integer fields fit this machine;
/// malformed or truncated bytes are a serialization error, distinct from any
/// I/O failure of the layer that produced them.
pub fn deserialize_message(b: &Vec<u8>) -> (r: Result<Message, Error>)
    ensures
        match r {
            Ok(m) => spec_decode_message(b@) == Some(m@) && msg_fits(m@),
            Err(e) => e == Error::Serialization && (spec_decode_message(b@) matches Some(mv)
                ==> !msg_fits(mv)),
        },
{
    let n = b.len();
    if n < 25 {
        return Err(Error::Serialization);
    }
    let offset_u = read_u64_le(b, 0);
    let size_u = read_u64_le(b, 8);
    let timestamp = read_i64_le(b, 16);
    if offset_u > usize::MAX as u64 || size_u > usize::MAX as u64 {
        return Err(Error::Serialization);
    }
    let offset = offset_u as usize;
    let size = size_u as usize;
    let tag = b[24];
    if tag == 1 {
        if n < 41 {
            return Err(Error::Serialization);
        }
        let klen_u = read_u64_le(b, 25);
        if klen_u > (n - 41) as u64 {
            return Err(Error::Serialization);
        }
        let klen = klen_u as usize;
        let vlen_u = read_u64_le(b, 33 + klen);
        if vlen_u != (n - 41 - klen) as u64 {
            return Err(Error::Serialization);
        }
        let key = copy_range(b, 33, klen);
        let value = copy_range(b, 41 + klen, n - 41 - klen);
        Ok(Message { offset, size, timestamp, key: Some(key), value })
    } else if tag == 0 {
        if n < 33 {
            return Err(Error::Serialization);
        }
        let vlen_u = read_u64_le(b, 25);
        if vlen_u != (n - 33) as u64 {
            return Err(Error::Serialization);
        }
        let value = copy_range(b, 33, n - 33);
        Ok(Message { offset, size, timestamp, key: None, value })
    } else {
        Err(Error::Serialization)
    }
}

} // verus!
