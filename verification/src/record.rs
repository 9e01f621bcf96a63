use crate::bytes::{be_bytes, be_value, lemma_be_value_of_bytes, read_u64, write_u64};
use crate::error::Error;
use vstd::prelude::*;
use vstd::slice::{slice_subrange, slice_to_vec};

verus! {

/// Offset of the length field in a frame.
pub const OFFSET_LEN: usize = 0;

/// Offset of the index field in a frame.
pub const OFFSET_IDX: usize = 8;

/// Offset of the acknowledgement field in a frame.
pub const OFFSET_ACK: usize = 16;

/// Offset of the payload in a data frame.
pub const OFFSET_DATA: usize = 24;

/// Offset of the trailing length in an acknowledgement frame.
pub const OFFSET_TAILING_LEN: usize = 24;

/// Bytes that a frame takes besides its payload.
pub const FRAME_OVERHEAD: usize = 32;

/// One record of a chunk.
#[derive(Debug, Clone, PartialEq, Eq)]
pub enum WalData {
    /// A user entry with its index and the acknowledged index at the time
    /// of writing
    Data { idx: u64, ack_idx: u64, data: Vec<u8> },
    /// A marker that carries the index of the last data record and the
    /// acknowledged index
    Ack { idx: u64, ack_idx: u64 },
}

/// A record as a mathematical value.
pub enum Record {
    Data { idx: u64, ack_idx: u64, data: Seq<u8> },
    Ack { idx: u64, ack_idx: u64 },
}

impl View for WalData {
    type V = Record;

    open spec fn view(&self) -> Record {
        match *self {
            WalData::Data { idx, ack_idx, data } => Record::Data { idx, ack_idx, data: data@ },
            WalData::Ack { idx, ack_idx } => Record::Ack { idx, ack_idx },
        }
    }
}

impl Record {
    pub open spec fn idx(self) -> u64 {
        match self {
            Record::Data { idx, .. } => idx,
            Record::Ack { idx, .. } => idx,
        }
    }

    pub open spec fn ack_idx(self) -> u64 {
        match self {
            Record::Data { ack_idx, .. } => ack_idx,
            Record::Ack { ack_idx, .. } => ack_idx,
        }
    }

    /// Number of bytes that the record takes in a chunk.
    pub open spec fn size(self) -> nat {
        match self {
            Record::Data { data, .. } => 32 + data.len(),
            Record::Ack { .. } => 32,
        }
    }

    /// The records that a chunk can hold and give back: the length of a
    /// payload is not the mark of an acknowledgement.
    pub open spec fn valid(self) -> bool {
        self matches Record::Data { data, .. } ==> data.len() < u64::MAX
    }

    /// The bytes of the record in a chunk: length, index and acknowledged
    /// index as big-endian numbers, the payload, and the length once more.
    /// An acknowledgement has `u64::MAX` for its length, no payload, and
    /// zero at its end.
    pub open spec fn frame(self) -> Seq<u8> {
        match self {
            Record::Data { idx, ack_idx, data } => be_bytes(data.len() as u64) + be_bytes(idx)
                + be_bytes(ack_idx) + data + be_bytes(data.len() as u64),
            Record::Ack { idx, ack_idx } => be_bytes(u64::MAX) + be_bytes(idx) + be_bytes(ack_idx)
                + be_bytes(0),
        }
    }
}

/// What stands at a position of a chunk.
pub enum Parsed {
    /// Fewer than 24 bytes are left, or the position is no position: the
    /// end of the chunk
    End,
    /// A record
    Found(Record),
    /// The frame of an acknowledgement that is cut short or does not end
    /// in zero
    BadAck,
    /// The frame of a data record that is cut short or does not end in its
    /// length
    BadEntry,
}

/// The big-endian number in the eight bytes of `bytes` from `at` on.
pub open spec fn word(bytes: Seq<u8>, at: int) -> u64 {
    be_value(bytes.subrange(at, at + 8))
}

/// What stands in `bytes` at position `at`.
pub open spec fn parse(bytes: Seq<u8>, at: int) -> Parsed {
    if at < 0 || at + 24 > bytes.len() {
        Parsed::End
    } else {
        let len = word(bytes, at);
        let idx = word(bytes, at + 8);
        let ack_idx = word(bytes, at + 16);
        if len == u64::MAX {
            if at + 32 <= bytes.len() && word(bytes, at + 24) == 0 {
                Parsed::Found(Record::Ack { idx, ack_idx })
            } else {
                Parsed::BadAck
            }
        } else {
            if at + 32 + len <= bytes.len() && word(bytes, at + 24 + len) == len {
                Parsed::Found(
                    Record::Data { idx, ack_idx, data: bytes.subrange(at + 24, at + 24 + len) },
                )
            } else {
                Parsed::BadEntry
            }
        }
    }
}

/// A record that stands in a chunk is valid and lies within the chunk.
pub proof fn lemma_parse_found(bytes: Seq<u8>, at: int)
    requires
        parse(bytes, at) is Found,
    ensures
        0 <= at,
        parse(bytes, at)->Found_0.valid(),
        at + parse(bytes, at)->Found_0.size() <= bytes.len(),
{
}

/// The frame of a record has the record's size.
pub proof fn lemma_frame_len(rec: Record)
    ensures
        rec.frame().len() == rec.size(),
{
}

/// A valid record is read back from its frame, whatever stands before and
/// behind it.
#[verifier::rlimit(50)]
pub proof fn lemma_parse_frame(before: Seq<u8>, rec: Record, after: Seq<u8>)
    requires
        rec.valid(),
    ensures
        parse(before + rec.frame() + after, before.len() as int) == Parsed::Found(rec),
{
    let bytes = before + rec.frame() + after;
    let at = before.len() as int;
    match rec {
        Record::Data { idx, ack_idx, data } => {
            let len = data.len() as u64;
            lemma_be_value_of_bytes(len);
            lemma_be_value_of_bytes(idx);
            lemma_be_value_of_bytes(ack_idx);
            assert(bytes.subrange(at, at + 8) =~= be_bytes(len));
            assert(bytes.subrange(at + 8, at + 16) =~= be_bytes(idx));
            assert(bytes.subrange(at + 16, at + 24) =~= be_bytes(ack_idx));
            assert(bytes.subrange(at + 24 + len, at + 32 + len) =~= be_bytes(len));
            assert(bytes.subrange(at + 24, at + 24 + len) =~= data);
        },
        Record::Ack { idx, ack_idx } => {
            lemma_be_value_of_bytes(u64::MAX);
            lemma_be_value_of_bytes(idx);
            lemma_be_value_of_bytes(ack_idx);
            lemma_be_value_of_bytes(0);
            assert(bytes.subrange(at, at + 8) =~= be_bytes(u64::MAX));
            assert(bytes.subrange(at + 8, at + 16) =~= be_bytes(idx));
            assert(bytes.subrange(at + 16, at + 24) =~= be_bytes(ack_idx));
            assert(bytes.subrange(at + 24, at + 32) =~= be_bytes(0));
        },
    }
}

/// A record that stands in a chunk stands there still when the chunk
/// grows.
pub proof fn lemma_parse_extend(bytes: Seq<u8>, more: Seq<u8>, at: int)
    requires
        parse(bytes, at) is Found,
    ensures
        parse(bytes + more, at) == parse(bytes, at),
{
    let longer = bytes + more;
    assert(longer.subrange(at, at + 8) =~= bytes.subrange(at, at + 8));
    assert(longer.subrange(at + 8, at + 16) =~= bytes.subrange(at + 8, at + 16));
    assert(longer.subrange(at + 16, at + 24) =~= bytes.subrange(at + 16, at + 24));
    let len = word(bytes, at);
    if len == u64::MAX {
        assert(longer.subrange(at + 24, at + 32) =~= bytes.subrange(at + 24, at + 32));
    } else {
        assert(longer.subrange(at + 24 + len, at + 32 + len) =~= bytes.subrange(
            at + 24 + len,
            at + 32 + len,
        ));
        assert(longer.subrange(at + 24, at + 24 + len) =~= bytes.subrange(at + 24, at + 24 + len));
    }
}

impl WalData {
    /// Reads the record that stands in `buf` at position `at`. `Ok(None)`
    /// is the end of the chunk.
    pub fn read(buf: &Vec<u8>, at: usize) -> (r: Result<Option<WalData>, Error>)
        ensures
            match parse(buf@, at as int) {
                Parsed::End => r matches Ok(None),
                Parsed::Found(rec) => r matches Ok(Some(d)) && d@ == rec,
                Parsed::BadAck => r matches Err(Error::InvalidAck),
                Parsed::BadEntry => r matches Err(Error::InvalidEntry),
            },
    {
        if at > buf.len() {
            return Ok(None);
        }
        let left = buf.len() - at;
        if left < OFFSET_DATA {
            return Ok(None);
        }
        let len = read_u64(buf, at + OFFSET_LEN);
        let idx = read_u64(buf, at + OFFSET_IDX);
        let ack_idx = read_u64(buf, at + OFFSET_ACK);
        if len == u64::MAX {
            if left < FRAME_OVERHEAD {
                return Err(Error::InvalidAck);
            }
            let len2 = read_u64(buf, at + OFFSET_TAILING_LEN);
            if len2 != 0 {
                Err(Error::InvalidAck)
            } else {
                Ok(Some(WalData::Ack { ack_idx, idx }))
            }
        } else {
            if left < FRAME_OVERHEAD || len > (left - FRAME_OVERHEAD) as u64 {
                return Err(Error::InvalidEntry);
            }
            let n = len as usize;
            let len2 = read_u64(buf, at + OFFSET_DATA + n);
            if len2 != len {
                Err(Error::InvalidEntry)
            } else {
                let data = slice_to_vec(
                    slice_subrange(buf.as_slice(), at + OFFSET_DATA, at + OFFSET_DATA + n),
                );
                Ok(Some(WalData::Data { idx, ack_idx, data }))
            }
        }
    }

    /// Number of bytes that a record with a length field of `len` takes.
    pub fn size_on_disk_from_len(len: u64) -> (n: u64)
        requires
            len == u64::MAX || len + 32 <= u64::MAX,
        ensures
            n == if len == u64::MAX {
                32
            } else {
                len + 32
            },
    {
        let len64: u64 = 8;
        if len == u64::MAX {
            len64 * 4
        } else {
            len + (len64 * 4)
        }
    }

    /// Number of bytes that this record takes in a chunk.
    pub fn size_on_disk(&self) -> (n: u64)
        requires
            self@.size() <= u64::MAX,
        ensures
            n == self@.size(),
    {
        match self {
            WalData::Data { data, .. } => WalData::size_on_disk_from_len(data.len() as u64),
            WalData::Ack { .. } => WalData::size_on_disk_from_len(0),
        }
    }

    /// Appends the frame of this record to `w` and returns its size.
    pub fn write(&self, w: &mut Vec<u8>) -> (n: u64)
        requires
            old(w)@.len() + self@.size() <= usize::MAX,
        ensures
            final(w)@ == old(w)@ + self@.frame(),
            n == self@.size(),
    {
        let size_on_disk = self.size_on_disk() as usize;
        let mut buf: Vec<u8> = vec![0; size_on_disk];
        match self {
            WalData::Data { idx, ack_idx, data } => {
                let len = data.len();
                write_u64(&mut buf, OFFSET_LEN, len as u64);
                write_u64(&mut buf, OFFSET_IDX, *idx);
                write_u64(&mut buf, OFFSET_ACK, *ack_idx);
                assert(buf@.subrange(0, 24) =~= be_bytes(len as u64) + be_bytes(*idx) + be_bytes(
                    *ack_idx,
                ));
                assert(buf@.subrange(24, 24) =~= data@.subrange(0, 0));
                let mut i: usize = 0;
                while i < len
                    invariant
                        len == data@.len(),
                        buf@.len() == len + 32,
                        len + 32 <= usize::MAX,
                        i <= len,
                        buf@.subrange(0, 24) == be_bytes(len as u64) + be_bytes(*idx) + be_bytes(
                            *ack_idx,
                        ),
                        buf@.subrange(24, 24 + i) == data@.subrange(0, i as int),
                    decreases len - i,
                {
                    let ghost before = buf@;
                    buf.set(OFFSET_DATA + i, data[i]);
                    assert(buf@.subrange(0, 24) =~= before.subrange(0, 24));
                    assert(buf@.subrange(24, 24 + i + 1) =~= before.subrange(24, 24 + i).push(
                        data@[i as int],
                    ));
                    assert(data@.subrange(0, i + 1) =~= data@.subrange(0, i as int).push(
                        data@[i as int],
                    ));
                    i += 1;
                }
                let ghost filled = buf@;
                write_u64(&mut buf, OFFSET_DATA + len, len as u64);
                assert(data@.subrange(0, len as int) =~= data@);
                assert(buf@ =~= filled.subrange(0, 24) + filled.subrange(24, 24 + len) + be_bytes(
                    len as u64,
                ));
                assert(buf@ =~= self@.frame());
            },
            WalData::Ack { ack_idx, idx } => {
                write_u64(&mut buf, OFFSET_LEN, u64::MAX);
                write_u64(&mut buf, OFFSET_IDX, *idx);
                write_u64(&mut buf, OFFSET_ACK, *ack_idx);
                write_u64(&mut buf, OFFSET_TAILING_LEN, 0);
                assert(buf@ =~= self@.frame());
            },
        }
        w.append(&mut buf);
        self.size_on_disk()
    }

    /// Fetches the index of the most recent acknowledgement
    pub fn ack_idx(&self) -> (r: u64)
        ensures
            r == self@.ack_idx(),
    {
        match self {
            WalData::Data { ack_idx, .. } => *ack_idx,
            WalData::Ack { ack_idx, .. } => *ack_idx,
        }
    }

    /// Fetches the index of the record
    pub fn idx(&self) -> (r: u64)
        ensures
            r == self@.idx(),
    {
        match self {
            WalData::Data { idx, .. } => *idx,
            WalData::Ack { idx, .. } => *idx,
        }
    }
}

} // verus!
