use crate::bytes::read_u64;
use crate::entry::Entry;
use crate::error::{match_error, Error};
use crate::record::{lemma_parse_found, parse, word, Parsed, Record, WalData};
use vstd::prelude::*;

verus! {

/// The state of a chunk as a mathematical value: the bytes of its file and
/// its six cursors.
pub struct FileState {
    /// The bytes of the file
    pub file: Seq<u8>,
    /// The next index to be written
    pub next_idx_to_write: u64,
    /// The write offset
    pub write_offset: u64,
    /// The next index to be read
    pub next_idx_to_read: u64,
    /// The read offset
    pub read_pointer: u64,
    /// The index up to which entries are acknowledged
    pub ack_idx: u64,
    /// The acknowledged index that the file holds
    pub ack_written: u64,
}

/// What a search for the next data record comes to.
pub enum Next {
    /// A data record, and the position behind it
    Entry { idx: u64, data: Seq<u8>, end: int },
    /// The end of the chunk, reached at `end`
    Nothing { end: int },
    /// A corrupted acknowledgement at `at`
    BadAck { at: int },
    /// A corrupted data record at `at`, or one whose index is `u64::MAX`:
    /// behind it no read index is left
    BadEntry { at: int },
}

/// The first data record of `bytes` at or behind `at`, over any
/// acknowledgements before it. A data record with the index `u64::MAX`
/// cannot be taken out, since the read index would have to go behind it.
pub open spec fn next_data(bytes: Seq<u8>, at: int) -> Next
    decreases bytes.len() - at,
{
    match parse(bytes, at) {
        Parsed::End => Next::Nothing { end: at },
        Parsed::BadAck => Next::BadAck { at },
        Parsed::BadEntry => Next::BadEntry { at },
        Parsed::Found(Record::Data { idx, data, .. }) => if idx < u64::MAX {
            Next::Entry { idx, data, end: at + 32 + data.len() }
        } else {
            Next::BadEntry { at }
        },
        Parsed::Found(Record::Ack { .. }) => next_data(bytes, at + 32),
    }
}

/// Where a search for an index comes to.
pub enum Sought {
    /// The position of the record found, or of the end of the chunk
    At(int),
    /// The search met a corrupted acknowledgement
    BadAck,
    /// The search met a corrupted data record
    BadEntry,
}

/// The position of the first record of `bytes` at or behind `at` whose index
/// is `target` or more; the end of the chunk where there is none.
pub open spec fn seek_from(bytes: Seq<u8>, at: int, target: u64) -> Sought
    decreases bytes.len() - at,
{
    match parse(bytes, at) {
        Parsed::End => Sought::At(at),
        Parsed::BadAck => Sought::BadAck,
        Parsed::BadEntry => Sought::BadEntry,
        Parsed::Found(rec) => if rec.idx() >= target {
            Sought::At(at)
        } else {
            seek_from(bytes, at + rec.size(), target)
        },
    }
}

/// The records of a chunk from a position on, each with its offset, and
/// what the walk over them stopped at.
pub struct Listing {
    pub records: Seq<(u64, Record)>,
    pub stop: Parsed,
}

/// Walks over the records of `bytes` from `at` on.
pub open spec fn listing(bytes: Seq<u8>, at: int) -> Listing
    decreases bytes.len() - at,
{
    match parse(bytes, at) {
        Parsed::Found(rec) => {
            let rest = listing(bytes, at + rec.size());
            Listing { records: seq![(at as u64, rec)] + rest.records, stop: rest.stop }
        },
        stop => Listing { records: Seq::empty(), stop },
    }
}

impl FileState {
    /// What holds of every chunk: the write offset is the length of the
    /// file, the read pointer lies in the file, an index was the last to be
    /// written, and the acknowledged index has a successor.
    pub open spec fn wf(self) -> bool {
        &&& self.write_offset == self.file.len()
        &&& self.read_pointer <= self.write_offset
        &&& self.next_idx_to_write >= 1
        &&& self.ack_idx < u64::MAX
    }

    /// An empty chunk: the first index to write and to read is 1, and
    /// nothing is acknowledged.
    pub open spec fn fresh() -> FileState {
        FileState {
            file: Seq::empty(),
            next_idx_to_write: 1,
            write_offset: 0,
            next_idx_to_read: 1,
            read_pointer: 0,
            ack_idx: 0,
            ack_written: 0,
        }
    }

    /// The data record that the next push writes.
    pub open spec fn next_record(self, data: Seq<u8>) -> Record {
        Record::Data { idx: self.next_idx_to_write, ack_idx: self.ack_idx, data }
    }

    /// The chunk after a push of `data`.
    pub open spec fn pushed(self, data: Seq<u8>) -> FileState {
        FileState {
            file: self.file + self.next_record(data).frame(),
            next_idx_to_write: (self.next_idx_to_write + 1) as u64,
            write_offset: (self.write_offset + 32 + data.len()) as u64,
            ack_written: self.ack_idx,
            ..self
        }
    }

    /// The marker that carries the acknowledged index of this chunk.
    pub open spec fn ack_record(self) -> Record {
        Record::Ack { idx: (self.next_idx_to_write - 1) as u64, ack_idx: self.ack_idx }
    }

    /// The chunk after its acknowledged index was written behind its last
    /// record.
    pub open spec fn ack_preserved(self) -> FileState {
        FileState {
            file: self.file + self.ack_record().frame(),
            write_offset: (self.write_offset + 32) as u64,
            ack_written: self.ack_idx,
            ..self
        }
    }

    /// The bytes that the chunk leaves behind when it is closed.
    pub open spec fn closed(self) -> Seq<u8> {
        if self.ack_written != self.ack_idx {
            self.ack_preserved().file
        } else {
            self.file
        }
    }

    /// The chunk after a pop, whatever the pop returns.
    pub open spec fn popped(self) -> FileState {
        match next_data(self.file, self.read_pointer as int) {
            Next::Entry { idx, end, .. } => FileState {
                read_pointer: end as u64,
                next_idx_to_read: (idx + 1) as u64,
                ..self
            },
            Next::Nothing { end } => FileState { read_pointer: end as u64, ..self },
            Next::BadAck { at } => FileState { read_pointer: at as u64, ..self },
            Next::BadEntry { at } => FileState { read_pointer: at as u64, ..self },
        }
    }

    /// The chunk with its read cursor at the first record whose index is
    /// `target` or more. A target before the first record leaves the cursor
    /// on that record; in a chunk without a record both parts of the cursor
    /// are zero.
    pub open spec fn sought(self, target: u64) -> Result<FileState, Error> {
        match parse(self.file, 0) {
            Parsed::End => Ok(FileState { read_pointer: 0, next_idx_to_read: 0, ..self }),
            Parsed::BadAck => Err(Error::InvalidAck),
            Parsed::BadEntry => Err(Error::InvalidEntry),
            Parsed::Found(first) => if first.idx() > target {
                Ok(FileState { read_pointer: 0, next_idx_to_read: first.idx(), ..self })
            } else {
                match seek_from(self.file, 0, target) {
                    Sought::At(at) => Ok(
                        FileState { read_pointer: at as u64, next_idx_to_read: target, ..self },
                    ),
                    Sought::BadAck => Err(Error::InvalidAck),
                    Sought::BadEntry => Err(Error::InvalidEntry),
                }
            },
        }
    }

    /// Where the last record of a file begins, going by the length that
    /// stands in its last eight bytes; `None` where the file is too short
    /// for that.
    pub open spec fn tail_start(file: Seq<u8>) -> Option<int> {
        if file.len() < 8 {
            None
        } else {
            let len = word(file, file.len() - 8);
            let size = if len == u64::MAX {
                32
            } else {
                len + 32
            };
            if size > file.len() {
                None
            } else {
                Some(file.len() - size)
            }
        }
    }

    /// The chunk that a file opens to. An empty file is a fresh chunk. Of
    /// any other the last record seeds the cursors, and the read cursor
    /// goes to the first index that is not acknowledged. A last record
    /// whose index or acknowledged index is `u64::MAX` leaves no index to
    /// write or to read next: such a file does not open.
    pub open spec fn opened(file: Seq<u8>) -> Result<FileState, Error> {
        if file.len() == 0 {
            Ok(FileState::fresh())
        } else {
            match FileState::tail_start(file) {
                None => Err(Error::InvalidFile),
                Some(start) => match parse(file, start) {
                    Parsed::End => Err(Error::InvalidFile),
                    Parsed::BadAck => Err(Error::InvalidAck),
                    Parsed::BadEntry => Err(Error::InvalidEntry),
                    Parsed::Found(last) => if last.idx() == u64::MAX || last.ack_idx()
                        == u64::MAX {
                        Err(Error::InvalidFile)
                    } else {
                        FileState {
                            file,
                            next_idx_to_write: (last.idx() + 1) as u64,
                            write_offset: file.len() as u64,
                            next_idx_to_read: (last.ack_idx() + 1) as u64,
                            read_pointer: start as u64,
                            ack_idx: last.ack_idx(),
                            ack_written: last.ack_idx(),
                        }.sought((last.ack_idx() + 1) as u64)
                    },
                },
            }
        }
    }

    /// An empty chunk that goes on where this one ends: it has the index
    /// cursors of this one.
    pub open spec fn successor(self) -> FileState {
        FileState {
            file: Seq::empty(),
            write_offset: 0,
            read_pointer: 0,
            ..self
        }
    }
}

/// The entry that a search for the next data record finds has an index
/// below `u64::MAX`, and a pop leaves the read index behind it. A pop
/// changes nothing but the read cursor.
pub proof fn lemma_chunk_pop_keeps(c: FileState)
    ensures
        c.popped() == (FileState {
            read_pointer: c.popped().read_pointer,
            next_idx_to_read: c.popped().next_idx_to_read,
            ..c
        }),
        next_data(c.file, c.read_pointer as int) matches Next::Entry { idx, .. } ==> idx
            < u64::MAX && c.popped().next_idx_to_read == idx + 1,
{
    lemma_next_data_index(c.file, c.read_pointer as int);
}

/// The entry that a search for the next data record finds has an index
/// below `u64::MAX`.
pub proof fn lemma_next_data_index(bytes: Seq<u8>, at: int)
    ensures
        next_data(bytes, at) matches Next::Entry { idx, .. } ==> idx < u64::MAX,
    decreases bytes.len() - at,
{
    if parse(bytes, at) is Found {
        lemma_parse_found(bytes, at);
        if parse(bytes, at)->Found_0 is Ack {
            lemma_next_data_index(bytes, at + 32);
        }
    }
}

/// A file fails to open only where it is corrupted.
pub proof fn lemma_opened_failure(file: Seq<u8>)
    ensures
        FileState::opened(file) matches Err(e) ==> e is InvalidAck || e is InvalidEntry || e
            is InvalidFile,
{
}

/// One chunk of a write-ahead log: the bytes of a segment file and the
/// cursors into it.
#[derive(Debug)]
pub struct WalFile {
    /// The bytes of the data file
    file: Vec<u8>,
    /// The next index to be written
    next_idx_to_write: u64,
    /// The write offset
    write_offset: u64,
    /// The next index to be read
    next_idx_to_read: u64,
    /// The read offset
    read_pointer: u64,
    /// The index for acknowledged entries
    ack_idx: u64,
    /// The most recent acknowledgement that the file holds
    ack_written: u64,
}

impl View for WalFile {
    type V = FileState;

    closed spec fn view(&self) -> FileState {
        FileState {
            file: self.file@,
            next_idx_to_write: self.next_idx_to_write,
            write_offset: self.write_offset,
            next_idx_to_read: self.next_idx_to_read,
            read_pointer: self.read_pointer,
            ack_idx: self.ack_idx,
            ack_written: self.ack_written,
        }
    }
}

impl WalFile {
    /// What holds of every chunk that this library hands out.
    pub open spec fn wf(&self) -> bool {
        self@.wf()
    }

    /// Persists the acknowledged index behind the last record of the chunk
    pub fn preserve_ack(&mut self)
        requires
            old(self).wf(),
            old(self)@.file.len() + 32 <= usize::MAX,
        ensures
            final(self).wf(),
            final(self)@ == old(self)@.ack_preserved(),
    {
        let ack_idx = self.ack_idx;
        self.ack_written = ack_idx;
        let data = WalData::Ack { idx: self.next_idx_to_write - 1, ack_idx };
        let n = data.write(&mut self.file);
        self.write_offset += n;
    }

    /// Closes the chunk and hands back the bytes of its file, with the
    /// acknowledged index persisted where the file did not hold it yet
    pub fn close(self) -> (file: Vec<u8>)
        requires
            self.wf(),
            self@.file.len() + 32 <= usize::MAX,
        ensures
            file@ == self@.closed(),
    {
        let mut chunk = self;
        if chunk.ack_written != chunk.ack_idx {
            chunk.preserve_ack();
        }
        chunk.file
    }

    /// Appends `data` as the next entry of the chunk and returns its index
    pub fn push_bytes(&mut self, data: Vec<u8>) -> (idx: u64)
        requires
            old(self).wf(),
            old(self)@.next_idx_to_write < u64::MAX,
            old(self)@.file.len() + 32 + data@.len() <= usize::MAX,
        ensures
            final(self).wf(),
            final(self)@ == old(self)@.pushed(data@),
            idx == old(self)@.next_idx_to_write,
    {
        let idx = self.next_idx_to_write;
        self.next_idx_to_write += 1;
        let ack_idx = self.ack_idx;
        self.ack_written = ack_idx;
        let data = WalData::Data { idx, ack_idx, data };
        let n = data.write(&mut self.file);
        self.write_offset += n;
        idx
    }

    /// Push an entry into the chunk. An entry that does not serialize
    /// leaves the chunk as it was.
    pub fn push<E>(&mut self, data: E) -> (r: Result<u64, Error<E::Error>>) where E: Entry
        requires
            old(self).wf(),
            old(self)@.next_idx_to_write < u64::MAX,
            data.encoded() matches Some(bytes) ==> old(self)@.file.len() + 32 + bytes.len()
                <= usize::MAX,
        ensures
            final(self).wf(),
            match data.encoded() {
                Some(bytes) => r matches Ok(idx) && idx == old(self)@.next_idx_to_write
                    && final(self)@ == old(self)@.pushed(bytes),
                None => r matches Err(Error::Entry(_)) && final(self)@ == old(self)@,
            },
    {
        match data.serialize() {
            Ok(bytes) => Ok(self.push_bytes(bytes)),
            Err(e) => Err(Error::Entry(e)),
        }
    }

    /// Takes the next entry out of the chunk, over any acknowledgements
    /// before it. `Ok(None)` says that the chunk holds no further entry. An
    /// entry with the index `u64::MAX` is refused as invalid, since the read
    /// index cannot go behind it; the read cursor then stays before it.
    pub fn pop_bytes(&mut self) -> (r: Result<Option<(u64, Vec<u8>)>, Error>)
        requires
            old(self).wf(),
        ensures
            final(self).wf(),
            final(self)@ == old(self)@.popped(),
            match next_data(old(self)@.file, old(self)@.read_pointer as int) {
                Next::Entry { idx, data, .. } => r matches Ok(Some(e)) && e.0 == idx && e.1@
                    == data,
                Next::Nothing { .. } => r matches Ok(None),
                Next::BadAck { .. } => r matches Err(Error::InvalidAck),
                Next::BadEntry { .. } => r matches Err(Error::InvalidEntry),
            },
    {
        let end = self.file.len();
        loop
            invariant
                self.wf(),
                end == self@.file.len(),
                self@ == (FileState { read_pointer: self@.read_pointer, ..old(self)@ }),
                next_data(self@.file, self@.read_pointer as int) == next_data(
                    old(self)@.file,
                    old(self)@.read_pointer as int,
                ),
            decreases self@.file.len() - self@.read_pointer,
        {
            proof {
                if parse(self@.file, self@.read_pointer as int) is Found {
                    lemma_parse_found(self@.file, self@.read_pointer as int);
                }
            }
            match WalData::read(&self.file, self.read_pointer as usize) {
                Err(e) => {
                    return Err(e);
                },
                Ok(None) => {
                    return Ok(None);
                },
                Ok(Some(data)) => {
                    let advance_by = data.size_on_disk();
                    match data {
                        WalData::Data { idx, data, .. } => {
                            if idx == u64::MAX {
                                return Err(Error::InvalidEntry);
                            }
                            self.read_pointer += advance_by;
                            self.next_idx_to_read = idx + 1;
                            return Ok(Some((idx, data)));
                        },
                        WalData::Ack { .. } => {
                            self.read_pointer += advance_by;
                        },
                    }
                },
            }
        }
    }

    /// Pop an entry from the chunk. The read cursor moves behind the
    /// record also where its payload does not deserialize.
    pub fn pop<E>(&mut self) -> (r: Result<Option<(u64, E::Output)>, Error<E::Error>>) where
        E: Entry,

        requires
            old(self).wf(),
        ensures
            final(self).wf(),
            final(self)@ == old(self)@.popped(),
            match next_data(old(self)@.file, old(self)@.read_pointer as int) {
                Next::Entry { idx, data, .. } => if E::decodable(data) {
                    r matches Ok(Some(e)) && e.0 == idx && E::decodes(data, e.1)
                } else {
                    r matches Err(Error::Entry(_))
                },
                Next::Nothing { .. } => r matches Ok(None),
                Next::BadAck { .. } => r matches Err(Error::InvalidAck),
                Next::BadEntry { .. } => r matches Err(Error::InvalidEntry),
            },
    {
        match self.pop_bytes() {
            Err(e) => Err(match_error(e)),
            Ok(None) => Ok(None),
            Ok(Some((idx, data))) => match E::deserialize(data) {
                Ok(out) => Ok(Some((idx, out))),
                Err(e) => Err(Error::Entry(e)),
            },
        }
    }

    /// Lists the records of a chunk file, each with its offset
    pub fn inspect(file: &Vec<u8>) -> (r: Result<Vec<(u64, WalData)>, Error>)
        ensures
            match listing(file@, 0).stop {
                Parsed::BadAck => r matches Err(Error::InvalidAck),
                Parsed::BadEntry => r matches Err(Error::InvalidEntry),
                _ => r matches Ok(v) && v@.len() == listing(file@, 0).records.len() && forall|
                    i: int,
                |
                    0 <= i < v@.len() ==> (#[trigger] v@[i]).0 == listing(file@, 0).records[i].0
                        && v@[i].1@ == listing(file@, 0).records[i].1,
            },
    {
        let mut out: Vec<(u64, WalData)> = Vec::new();
        let mut offset: usize = 0;
        let end = file.len();
        loop
            invariant
                end == file@.len(),
                offset <= file@.len(),
                listing(file@, 0).stop == listing(file@, offset as int).stop,
                listing(file@, 0).records.len() == out@.len() + listing(
                    file@,
                    offset as int,
                ).records.len(),
                forall|i: int|
                    0 <= i < out@.len() ==> (#[trigger] out@[i]).0 == listing(file@, 0).records[i].0
                        && out@[i].1@ == listing(file@, 0).records[i].1,
                forall|i: int|
                    0 <= i < listing(file@, offset as int).records.len() ==> listing(
                        file@,
                        0,
                    ).records[out@.len() + i] == #[trigger] listing(
                        file@,
                        offset as int,
                    ).records[i],
            decreases file@.len() - offset,
        {
            match WalData::read(file, offset) {
                Err(e) => {
                    return Err(e);
                },
                Ok(None) => {
                    return Ok(out);
                },
                Ok(Some(data)) => {
                    proof {
                        lemma_parse_found(file@, offset as int);
                    }
                    let ghost rest = listing(file@, offset as int);
                    let ghost tail = listing(file@, offset + data@.size());
                    assert(rest.records == seq![(offset as u64, data@)] + tail.records);
                    assert(rest.records[0] == (offset as u64, data@));
                    assert forall|i: int| 0 <= i < tail.records.len() implies listing(
                        file@,
                        0,
                    ).records[out@.len() + 1 + i] == #[trigger] tail.records[i] by {
                        assert(rest.records[i + 1] == tail.records[i]);
                    }
                    let size = data.size_on_disk() as usize;
                    out.push((offset as u64, data));
                    offset += size;
                },
            }
        }
    }

    /// Open a chunk over the bytes of its file. An empty file is a new
    /// chunk. A file whose last record holds `u64::MAX` as its index or as
    /// its acknowledged index is refused as invalid, since the cursors
    /// cannot go behind it.
    pub fn open(file: Vec<u8>) -> (r: Result<WalFile, Error>)
        ensures
            match FileState::opened(file@) {
                Ok(s) => r matches Ok(w) && w@ == s && w.wf(),
                Err(e) => r matches Err(x) && x == e,
            },
    {
        let end = file.len();
        if end == 0 {
            assert(file@ =~= Seq::<u8>::empty());
            return Ok(
                WalFile {
                    file,
                    next_idx_to_write: 1,
                    write_offset: 0,
                    next_idx_to_read: 1,
                    read_pointer: 0,
                    ack_idx: 0,
                    ack_written: 0,
                },
            );
        }
        if end < 8 {
            return Err(Error::InvalidFile);
        }
        let len = read_u64(&file, end - 8);
        if len != u64::MAX && len > u64::MAX - 32 {
            return Err(Error::InvalidFile);
        }
        let size = WalData::size_on_disk_from_len(len);
        if size > end as u64 {
            return Err(Error::InvalidFile);
        }
        let read_offset = end - size as usize;
        match WalData::read(&file, read_offset) {
            Err(e) => Err(e),
            Ok(None) => Err(Error::InvalidFile),
            Ok(Some(data)) => {
                if data.idx() == u64::MAX || data.ack_idx() == u64::MAX {
                    return Err(Error::InvalidFile);
                }
                let next_idx_to_read = data.ack_idx() + 1;
                let mut wal = WalFile {
                    file,
                    next_idx_to_write: data.idx() + 1,
                    write_offset: end as u64,
                    next_idx_to_read,
                    read_pointer: read_offset as u64,
                    ack_idx: data.ack_idx(),
                    ack_written: data.ack_idx(),
                };
                match wal.seek_to(next_idx_to_read) {
                    Ok(()) => Ok(wal),
                    Err(e) => Err(e),
                }
            },
        }
    }

    /// Retrieve the write offset of the chunk, the length of its file
    pub fn size(&self) -> (n: u64)
        ensures
            n == self@.write_offset,
    {
        self.write_offset
    }

    /// Seek to a specified index for the next read operation. An error
    /// leaves the chunk as it was.
    pub fn seek_to(&mut self, next_idx_to_read: u64) -> (r: Result<(), Error>)
        requires
            old(self).wf(),
        ensures
            final(self).wf(),
            match old(self)@.sought(next_idx_to_read) {
                Ok(s) => r matches Ok(_) && final(self)@ == s,
                Err(e) => r matches Err(x) && x == e && final(self)@ == old(self)@,
            },
    {
        match WalData::read(&self.file, 0) {
            Err(e) => Err(e),
            Ok(None) => {
                self.read_pointer = 0;
                self.next_idx_to_read = 0;
                Ok(())
            },
            Ok(Some(data)) => {
                if data.idx() > next_idx_to_read {
                    self.read_pointer = 0;
                    self.next_idx_to_read = data.idx();
                    return Ok(());
                }
                let mut read_offset: usize = 0;
                let mut current = data;
                let end = self.file.len();
                loop
                    invariant
                        self.wf(),
                        end == self@.file.len(),
                        self@ == old(self)@,
                        read_offset <= self@.file.len(),
                        parse(self@.file, 0) is Found,
                        parse(self@.file, 0)->Found_0.idx() <= next_idx_to_read,
                        parse(self@.file, read_offset as int) == Parsed::Found(current@),
                        seek_from(self@.file, 0, next_idx_to_read) == seek_from(
                            self@.file,
                            read_offset as int,
                            next_idx_to_read,
                        ),
                    decreases self@.file.len() - read_offset,
                {
                    if current.idx() >= next_idx_to_read {
                        self.read_pointer = read_offset as u64;
                        self.next_idx_to_read = next_idx_to_read;
                        return Ok(());
                    }
                    proof {
                        lemma_parse_found(self@.file, read_offset as int);
                    }
                    let ghost before = read_offset as int;
                    read_offset += current.size_on_disk() as usize;
                    assert(seek_from(self@.file, before, next_idx_to_read) == seek_from(
                        self@.file,
                        read_offset as int,
                        next_idx_to_read,
                    ));
                    match WalData::read(&self.file, read_offset) {
                        Err(e) => {
                            assert(!(seek_from(
                                self@.file,
                                read_offset as int,
                                next_idx_to_read,
                            ) is At));
                            return Err(e);
                        },
                        Ok(None) => {
                            self.read_pointer = read_offset as u64;
                            self.next_idx_to_read = next_idx_to_read;
                            return Ok(());
                        },
                        Ok(Some(data)) => {
                            current = data;
                        },
                    }
                }
            },
        }
    }

    /// Mark up to the specified index as acknowledged
    pub fn ack(&mut self, idx: u64)
        requires
            old(self).wf(),
            idx < u64::MAX,
        ensures
            final(self).wf(),
            final(self)@ == (FileState { ack_idx: idx, ..old(self)@ }),
    {
        self.ack_idx = idx;
    }

    /// An empty chunk that goes on where this one ends
    pub fn successor(&self) -> (next: WalFile)
        requires
            self.wf(),
        ensures
            next.wf(),
            next@ == self@.successor(),
    {
        WalFile {
            file: Vec::new(),
            next_idx_to_write: self.next_idx_to_write,
            write_offset: 0,
            next_idx_to_read: self.next_idx_to_read,
            read_pointer: 0,
            ack_idx: self.ack_idx,
            ack_written: self.ack_written,
        }
    }

    /// The next index to be read
    pub fn next_idx_to_read(&self) -> (n: u64)
        ensures
            n == self@.next_idx_to_read,
    {
        self.next_idx_to_read
    }

    /// The next index to be written
    pub fn next_idx_to_write(&self) -> (n: u64)
        ensures
            n == self@.next_idx_to_write,
    {
        self.next_idx_to_write
    }

    /// The index up to which entries are acknowledged
    pub fn ack_idx(&self) -> (n: u64)
        ensures
            n == self@.ack_idx,
    {
        self.ack_idx
    }

    /// Whether a payload of `len` bytes can be pushed: the chunk has an
    /// index left for it, and its frame fits behind the file.
    pub fn fits(&self, len: usize) -> (b: bool)
        requires
            self.wf(),
        ensures
            b <==> self@.next_idx_to_write < u64::MAX && self@.file.len() + 32 + len
                <= usize::MAX,
    {
        let size = self.file.len();
        self.next_idx_to_write < u64::MAX && size <= usize::MAX - 32 && len <= usize::MAX - 32
            - size
    }

    /// The bytes of the file
    pub fn bytes(&self) -> (file: &Vec<u8>)
        ensures
            file@ == self@.file,
    {
        &self.file
    }
}

} // verus!
