use crate::error::Error;
use crate::file::{lemma_chunk_pop_keeps, lemma_opened_failure, next_data, FileState, Next};
use crate::names::{index_of, is_chunk_name, is_file_name};
use vstd::prelude::*;

verus! {


/// The state of a log as a mathematical value.
pub struct LogState {
    /// The chunks that are no longer written to, oldest first: the first
    /// index and the bytes of each
    pub sealed: Seq<(u64, Seq<u8>)>,
    /// The first index of the chunk that is written to
    pub write_first: u64,
    /// The chunk that is written to
    pub write: FileState,
    /// The sealed chunk that is read from; without one, reads go to the
    /// chunk that is written to
    pub read: Option<FileState>,
    /// The first index of the chunk that is read from, where there is one
    pub read_first: u64,
    /// Soft limit of bytes per chunk
    pub chunk_size: u64,
    /// Soft limit of the number of chunks
    pub max_chunks: usize,
}

/// What a pop of a log comes to.
pub enum Popped {
    /// An entry: its index and its payload
    Entry { idx: u64, data: Seq<u8> },
    /// No entry is left to read
    Nothing,
    /// Reading failed
    Failed(Error),
}

/// What the search of a chunk for its next data record hands to the log.
pub open spec fn outcome(next: Next) -> Popped {
    match next {
        Next::Entry { idx, data, .. } => Popped::Entry { idx, data },
        Next::Nothing { .. } => Popped::Nothing,
        Next::BadAck { .. } => Popped::Failed(Error::InvalidAck),
        Next::BadEntry { .. } => Popped::Failed(Error::InvalidEntry),
    }
}

/// The first position of `chunks` at or behind `from` whose chunk begins at
/// `bound` or above; the length of `chunks` where there is none.
pub open spec fn first_from(chunks: Seq<(u64, Seq<u8>)>, from: int, bound: int) -> int
    decreases chunks.len() - from,
{
    if from < 0 || from >= chunks.len() {
        chunks.len() as int
    } else if chunks[from].0 >= bound {
        from
    } else {
        first_from(chunks, from + 1, bound)
    }
}

/// What `first_from` finds is the first chunk at or behind `from` that
/// begins at `bound` or above.
pub proof fn lemma_first_from(chunks: Seq<(u64, Seq<u8>)>, from: int, bound: int)
    requires
        0 <= from <= chunks.len(),
    ensures
        from <= first_from(chunks, from, bound) <= chunks.len(),
        first_from(chunks, from, bound) < chunks.len() ==> chunks[first_from(
            chunks,
            from,
            bound,
        )].0 >= bound,
        forall|j: int|
            from <= j < first_from(chunks, from, bound) ==> (#[trigger] chunks[j]).0 < bound,
    decreases chunks.len() - from,
{
    if from < chunks.len() && chunks[from].0 < bound {
        lemma_first_from(chunks, from + 1, bound);
    }
}

/// No chunk begins above `u64::MAX`.
pub proof fn lemma_first_above_all(chunks: Seq<(u64, Seq<u8>)>, from: int)
    requires
        0 <= from <= chunks.len(),
    ensures
        first_from(chunks, from, u64::MAX + 1) == chunks.len(),
    decreases chunks.len() - from,
{
    if from < chunks.len() {
        lemma_first_above_all(chunks, from + 1);
    }
}

/// The last position of `chunks` before `upto` whose chunk begins at `idx`
/// or below; -1 where there is none.
pub open spec fn last_upto(chunks: Seq<(u64, Seq<u8>)>, upto: int, idx: u64) -> int
    decreases upto,
{
    if upto <= 0 || upto > chunks.len() {
        -1
    } else if chunks[upto - 1].0 <= idx {
        upto - 1
    } else {
        last_upto(chunks, upto - 1, idx)
    }
}

/// What `last_upto` finds is the last chunk before `upto` that begins at
/// `idx` or below.
pub proof fn lemma_last_upto(chunks: Seq<(u64, Seq<u8>)>, upto: int, idx: u64)
    requires
        0 <= upto <= chunks.len(),
    ensures
        -1 <= last_upto(chunks, upto, idx) < upto,
        last_upto(chunks, upto, idx) >= 0 ==> chunks[last_upto(chunks, upto, idx)].0 <= idx,
        forall|j: int| last_upto(chunks, upto, idx) < j < upto ==> (#[trigger] chunks[j]).0 > idx,
    decreases upto,
{
    if upto > 0 && chunks[upto - 1].0 > idx {
        lemma_last_upto(chunks, upto - 1, idx);
    }
}

/// The number of leading chunks that an acknowledgement of `id` lets go: a
/// chunk goes when it and all before it are followed by a chunk that
/// begins at `id` or below. The last chunk never goes.
pub open spec fn reclaimable(chunks: Seq<(u64, Seq<u8>)>, id: u64) -> nat
    decreases chunks.len(),
{
    if chunks.len() <= 1 || chunks[1].0 > id {
        0
    } else {
        1 + reclaimable(chunks.drop_first(), id)
    }
}

/// An acknowledgement lets go only chunks that are followed by a chunk
/// which begins at or below the acknowledged index; the first chunk that
/// stays is the last, or is followed by a chunk that begins above the
/// acknowledged index.
pub proof fn lemma_reclaimable(chunks: Seq<(u64, Seq<u8>)>, id: u64)
    requires
        chunks.len() >= 1,
    ensures
        reclaimable(chunks, id) < chunks.len(),
        forall|j: int| 0 <= j < reclaimable(chunks, id) ==> (#[trigger] chunks[j + 1]).0 <= id,
        reclaimable(chunks, id) + 1 < chunks.len() ==> chunks[reclaimable(chunks, id) as int + 1].0
            > id,
    decreases chunks.len(),
{
    if chunks.len() > 1 && chunks[1].0 <= id {
        let rest = chunks.drop_first();
        lemma_reclaimable(rest, id);
        assert forall|j: int| 0 <= j < reclaimable(chunks, id) implies (#[trigger] chunks[j
            + 1]).0 <= id by {
            if j > 0 {
                assert(rest[j - 1 + 1] == chunks[j + 1]);
            }
        }
        if reclaimable(chunks, id) + 1 < chunks.len() {
            let kept = reclaimable(rest, id) as int;
            assert(rest[kept + 1] == chunks[kept + 2]);
        }
    }
}

impl LogState {
    /// What holds of every log: its chunks are well formed.
    pub open spec fn wf(self) -> bool {
        &&& self.write.wf()
        &&& self.read matches Some(read) ==> read.wf()
    }

    /// All chunks of the log, oldest first: the first index and the bytes
    /// of each. The last is the one that is written to.
    pub open spec fn chunks(self) -> Seq<(u64, Seq<u8>)> {
        self.sealed.push((self.write_first, self.write.file))
    }

    /// Current read index
    pub open spec fn read_idx(self) -> u64 {
        match self.read {
            Some(read) => read.next_idx_to_read,
            None => self.write.next_idx_to_read,
        }
    }

    /// The log with `data` written to its last chunk, before any rotation.
    pub open spec fn written(self, data: Seq<u8>) -> LogState {
        LogState { write: self.write.pushed(data), ..self }
    }

    /// Whether the last chunk is over the limit of bytes.
    pub open spec fn over_size(self) -> bool {
        self.write.write_offset > self.chunk_size
    }

    /// Whether the log holds more chunks than the limit.
    pub open spec fn over_count(self) -> bool {
        self.chunks().len() > self.max_chunks
    }

    /// The log after a rotation: the last chunk is sealed, and a new chunk
    /// that begins with the acknowledged index takes its place. Reading
    /// goes on in the sealed chunk unless an older one is being read.
    pub open spec fn rotated(self) -> LogState {
        LogState {
            sealed: self.sealed.push((self.write_first, self.write.file)),
            write_first: self.write.next_idx_to_write,
            write: self.write.successor().ack_preserved(),
            read: if self.read is None {
                Some(self.write)
            } else {
                self.read
            },
            read_first: if self.read is None {
                self.write_first
            } else {
                self.read_first
            },
            ..self
        }
    }

    /// The log after a push of `data`, whatever the push returns.
    pub open spec fn pushed(self, data: Seq<u8>) -> LogState {
        let written = self.written(data);
        if written.over_size() && !written.over_count() {
            written.rotated()
        } else {
            written
        }
    }

    /// Whether a push of `data` is refused: the record is written, but the
    /// chunk that it fills cannot be followed by a new one.
    pub open spec fn push_refused(self, data: Seq<u8>) -> bool {
        self.written(data).over_size() && self.written(data).over_count()
    }

    /// The position of the sealed chunk that reading moves on to when the
    /// chunk that is read from is exhausted at `next_idx_to_read`: the
    /// first one that begins behind the chunk that is read from, at
    /// `next_idx_to_read` or above. The number of sealed chunks where
    /// there is none.
    pub open spec fn next_chunk(self, next_idx_to_read: u64) -> int {
        first_from(
            self.sealed,
            0,
            if next_idx_to_read > self.read_first {
                next_idx_to_read as int
            } else {
                self.read_first + 1
            },
        )
    }

    /// The log after a seek to `idx`, and the error of a seek that fails.
    /// An index in the last chunk is sought there, and reading leaves the
    /// sealed chunks. Any other is sought in the last sealed chunk that
    /// begins at or below it; a seek that fails there changes nothing.
    pub open spec fn sought(self, idx: u64) -> (LogState, Option<Error>) {
        if idx >= self.write_first {
            match self.write.sought(idx) {
                Ok(write) => (LogState { read: None, write, ..self }, None),
                Err(e) => (LogState { read: None, ..self }, Some(e)),
            }
        } else {
            let at = last_upto(self.sealed, self.sealed.len() as int, idx);
            if at < 0 {
                (self, Some(Error::InvalidIndex))
            } else {
                match FileState::opened(self.sealed[at].1) {
                    Err(e) => (self, Some(e)),
                    Ok(chunk) => match chunk.sought(idx) {
                        Err(e) => (self, Some(e)),
                        Ok(found) => (
                            LogState { read: Some(found), read_first: self.sealed[at].0, ..self },
                            None,
                        ),
                    },
                }
            }
        }
    }

    /// The log after a revert, and the error of a revert that fails.
    pub open spec fn reverted(self) -> (LogState, Option<Error>) {
        self.sought((self.write.ack_idx + 1) as u64)
    }

    /// Whether `id` can be acknowledged: it was read, and it lies above
    /// what is acknowledged already.
    pub open spec fn can_ack(self, id: u64) -> bool {
        self.write.ack_idx < id < self.read_idx()
    }

    /// The log after `id` was acknowledged: the chunks in which every
    /// index is acknowledged are gone.
    pub open spec fn acked(self, id: u64) -> LogState {
        LogState {
            write: FileState { ack_idx: id, ..self.write },
            sealed: self.sealed.subrange(
                reclaimable(self.chunks(), id) as int,
                self.sealed.len() as int,
            ),
            ..self
        }
    }

    /// The chunks that the log leaves behind when it is closed.
    pub open spec fn closed(self) -> Seq<(u64, Seq<u8>)> {
        self.sealed.push((self.write_first, self.write.closed()))
    }

    /// The log that a set of chunks opens to: the last chunk is the one to
    /// write to, and reading starts at its read index. Without a chunk, an
    /// empty one that begins at index 0 is made.
    pub open spec fn opened(
        chunks: Seq<(u64, Seq<u8>)>,
        chunk_size: u64,
        max_chunks: usize,
    ) -> Result<LogState, Error> {
        if chunks.len() == 0 {
            Ok(
                LogState {
                    sealed: Seq::empty(),
                    write_first: 0,
                    write: FileState::fresh(),
                    read: None,
                    read_first: 0,
                    chunk_size,
                    max_chunks,
                },
            )
        } else {
            match FileState::opened(chunks.last().1) {
                Err(e) => Err(e),
                Ok(write) => {
                    let log = LogState {
                        sealed: chunks.drop_last(),
                        write_first: chunks.last().0,
                        write,
                        read: None,
                        read_first: 0,
                        chunk_size,
                        max_chunks,
                    };
                    match log.sought(write.next_idx_to_read).1 {
                        Some(e) => Err(e),
                        None => Ok(log.sought(write.next_idx_to_read).0),
                    }
                },
            }
        }
    }

    #[via_fn]
    proof fn popped_decreases(self) {
        if let Some(read) = self.read {
            let drained = LogState { read: Some(read.popped()), ..self };
            let bound = if read.popped().next_idx_to_read > self.read_first {
                read.popped().next_idx_to_read as int
            } else {
                self.read_first + 1
            };
            lemma_first_from(self.sealed, 0, bound);
        }
    }

    /// The log after a pop, and what the pop comes to. A sealed chunk is
    /// read to its end, then the next sealed chunk is opened, and after
    /// the last of them reading goes on in the chunk that is written to.
    pub open spec fn popped(self) -> (LogState, Popped)
        decreases
                (if self.read is Some {
                    1nat
                } else {
                    0nat
                }),
                u64::MAX - self.read_first,
        via LogState::popped_decreases
    {
        match self.read {
            None => (
                LogState { write: self.write.popped(), ..self },
                outcome(next_data(self.write.file, self.write.read_pointer as int)),
            ),
            Some(read) => {
                let next = next_data(read.file, read.read_pointer as int);
                let drained = LogState { read: Some(read.popped()), ..self };
                if next is Nothing {
                    let at = drained.next_chunk(read.popped().next_idx_to_read);
                    if 0 <= at < self.sealed.len() {
                        match FileState::opened(self.sealed[at].1) {
                            Ok(chunk) => LogState {
                                read: Some(chunk),
                                read_first: self.sealed[at].0,
                                ..self
                            }.popped(),
                            Err(e) => (drained, Popped::Failed(e)),
                        }
                    } else {
                        LogState { read: None, ..self }.popped()
                    }
                } else {
                    (drained, outcome(next))
                }
            },
        }
    }
}

/// The chunks in the order of their first indices. Chunks with the same
/// first index keep their order.
pub open spec fn ordered(chunks: Seq<(u64, Seq<u8>)>) -> Seq<(u64, Seq<u8>)>
    decreases chunks.len(),
{
    if chunks.len() == 0 {
        chunks
    } else {
        let rest = ordered(chunks.drop_first());
        rest.insert(first_from(rest, 0, chunks[0].0 as int), chunks[0])
    }
}

/// Whether every chunk begins at or above the chunks before it.
pub open spec fn ascending(chunks: Seq<(u64, Seq<u8>)>) -> bool {
    forall|i: int, j: int| 0 <= i <= j < chunks.len() ==> chunks[i].0 <= chunks[j].0
}

/// The files of a directory as mathematical values: name and bytes.
pub open spec fn named(files: Seq<(String, Vec<u8>)>) -> Seq<(Seq<char>, Seq<u8>)> {
    Seq::new(files.len(), |i: int| (files[i].0@, files[i].1@))
}

/// The chunks that the files of a directory hold, in the order of the
/// files.
pub open spec fn listed(files: Seq<(Seq<char>, Seq<u8>)>) -> Seq<(u64, Seq<u8>)> {
    Seq::new(files.len(), |i: int| (index_of(files[i].0), files[i].1))
}

/// Whether every file of a directory has the name of a chunk file.
pub open spec fn all_chunks(files: Seq<(Seq<char>, Seq<u8>)>) -> bool {
    forall|i: int| 0 <= i < files.len() ==> is_chunk_name(#[trigger] files[i].0)
}

/// Whether `files` are the chunks `chunks` under their names.
pub open spec fn names_of(files: Seq<(String, Vec<u8>)>, chunks: Seq<(u64, Seq<u8>)>) -> bool {
    &&& files.len() == chunks.len()
    &&& forall|i: int|
        0 <= i < files.len() ==> is_file_name((#[trigger] files[i]).0@, chunks[i].0) && files[i].1@
            == chunks[i].1
}

/// Ordering chunks gives as many chunks, in ascending order.
pub proof fn lemma_ordered(chunks: Seq<(u64, Seq<u8>)>)
    ensures
        ordered(chunks).len() == chunks.len(),
        ascending(ordered(chunks)),
        ordered(chunks).to_multiset() == chunks.to_multiset(),
    decreases chunks.len(),
{
    if chunks.len() == 0 {
    } else {
        let rest = ordered(chunks.drop_first());
        lemma_ordered(chunks.drop_first());
        let at = first_from(rest, 0, chunks[0].0 as int);
        lemma_first_from(rest, 0, chunks[0].0 as int);
        let out = rest.insert(at, chunks[0]);
        assert forall|i: int, j: int| 0 <= i <= j < out.len() implies out[i].0 <= out[j].0 by {
            if i < at && j > at {
                assert(rest[i].0 <= rest[j - 1].0);
            } else if i < at && j < at {
                assert(rest[i].0 <= rest[j].0);
            } else if i > at {
                assert(rest[i - 1].0 <= rest[j - 1].0);
            } else if i == at && j > at {
                assert(rest[at].0 <= rest[j - 1].0);
            }
        }
        vstd::seq_lib::to_multiset_insert(rest, at, chunks[0]);
        assert(chunks =~= seq![chunks[0]] + chunks.drop_first());
        vstd::seq_lib::lemma_multiset_commutative(seq![chunks[0]], chunks.drop_first());
        assert(seq![chunks[0]] =~= Seq::empty().push(chunks[0]));
        Seq::<(u64, Seq<u8>)>::empty().to_multiset_ensures();
    }
}

/// Chunks that begin at ascending indices, each above the one before, are
/// in their order already.
pub proof fn lemma_ordered_ascending(chunks: Seq<(u64, Seq<u8>)>)
    requires
        forall|i: int, j: int| 0 <= i < j < chunks.len() ==> chunks[i].0 < chunks[j].0,
    ensures
        ordered(chunks) == chunks,
    decreases chunks.len(),
{
    if chunks.len() > 0 {
        let rest = chunks.drop_first();
        assert forall|i: int, j: int| 0 <= i < j < rest.len() implies rest[i].0 < rest[j].0 by {
            assert(chunks[i + 1].0 < chunks[j + 1].0);
        }
        lemma_ordered_ascending(rest);
        if rest.len() > 0 {
            assert(chunks[0].0 < chunks[1].0);
            assert(rest[0] == chunks[1]);
        }
        assert(first_from(rest, 0, chunks[0].0 as int) == 0);
        assert(rest.insert(0, chunks[0]) =~= chunks);
    }
}

/// The files that a log leaves behind are chunk files, and listing them
/// gives the chunks that they were made from.
pub proof fn lemma_names_listed(files: Seq<(String, Vec<u8>)>, chunks: Seq<(u64, Seq<u8>)>)
    requires
        names_of(files, chunks),
    ensures
        all_chunks(named(files)),
        listed(named(files)) == chunks,
{
    assert forall|i: int| 0 <= i < named(files).len() implies is_chunk_name(
        #[trigger] named(files)[i].0,
    ) by {
        assert(is_file_name(files[i].0@, chunks[i].0));
    }
    assert forall|i: int| 0 <= i < chunks.len() implies listed(named(files))[i] == chunks[i] by {
        assert(is_file_name(files[i].0@, chunks[i].0));
    }
    assert(listed(named(files)) =~= chunks);
}

impl LogState {
    /// Whether a pop keeps what it is not to change: the chunks, the
    /// limits, and the cursors of writing and acknowledging; and whether it
    /// leaves the read index behind the entry that it returns.
    pub open spec fn pop_keeps(self) -> bool {
        let after = self.popped().0;
        &&& after.sealed == self.sealed
        &&& after.write_first == self.write_first
        &&& after.chunk_size == self.chunk_size
        &&& after.max_chunks == self.max_chunks
        &&& after.write.file == self.write.file
        &&& after.write.next_idx_to_write == self.write.next_idx_to_write
        &&& after.write.ack_idx == self.write.ack_idx
        &&& after.write.ack_written == self.write.ack_written
        &&& self.popped().1 matches Popped::Entry { idx, .. } ==> after.read_idx() == idx + 1
    }
}

/// A pop changes no chunk, no limit and no cursor of writing or
/// acknowledging, and leaves the read index behind the entry that it
/// returns, so that this entry can be acknowledged.
pub proof fn lemma_pop_keeps(s: LogState)
    ensures
        s.pop_keeps(),
    decreases
            (if s.read is Some {
                1nat
            } else {
                0nat
            }),
            u64::MAX - s.read_first,
{
    lemma_chunk_pop_keeps(s.write);
    if let Some(read) = s.read {
        lemma_chunk_pop_keeps(read);
        let next = next_data(read.file, read.read_pointer as int);
        let drained = LogState { read: Some(read.popped()), ..s };
        if next is Nothing {
            let bound = if read.popped().next_idx_to_read > s.read_first {
                read.popped().next_idx_to_read as int
            } else {
                s.read_first + 1
            };
            lemma_first_from(s.sealed, 0, bound);
            let at = drained.next_chunk(read.popped().next_idx_to_read);
            if 0 <= at < s.sealed.len() {
                match FileState::opened(s.sealed[at].1) {
                    Ok(chunk) => {
                        let moved = LogState {
                            read: Some(chunk),
                            read_first: s.sealed[at].0,
                            ..s
                        };
                        lemma_pop_keeps(moved);
                        assert(s.popped() == moved.popped());
                    },
                    Err(e) => {
                        assert(s.popped().0 == drained);
                    },
                }
            } else {
                let moved = LogState { read: None, ..s };
                lemma_pop_keeps(moved);
                assert(s.popped() == moved.popped());
            }
        } else {
            assert(s.popped().0 == drained);
        }
    }
}

/// A pop fails only on a corrupted record or on a chunk that does not
/// open.
pub proof fn lemma_popped_failure(s: LogState)
    ensures
        s.popped().1 matches Popped::Failed(e) ==> e is InvalidAck || e is InvalidEntry || e
            is InvalidFile,
    decreases
            (if s.read is Some {
                1nat
            } else {
                0nat
            }),
            u64::MAX - s.read_first,
{
    if let Some(read) = s.read {
        let next = next_data(read.file, read.read_pointer as int);
        let drained = LogState { read: Some(read.popped()), ..s };
        if next is Nothing {
            let bound = if read.popped().next_idx_to_read > s.read_first {
                read.popped().next_idx_to_read as int
            } else {
                s.read_first + 1
            };
            lemma_first_from(s.sealed, 0, bound);
            let at = drained.next_chunk(read.popped().next_idx_to_read);
            if 0 <= at < s.sealed.len() {
                lemma_opened_failure(s.sealed[at].1);
                match FileState::opened(s.sealed[at].1) {
                    Ok(chunk) => {
                        lemma_popped_failure(
                            LogState { read: Some(chunk), read_first: s.sealed[at].0, ..s },
                        );
                    },
                    Err(e) => {},
                }
            } else {
                lemma_popped_failure(LogState { read: None, ..s });
            }
        }
    }
}

} // verus!
