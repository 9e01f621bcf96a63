use crate::entry::Entry;
use crate::error::{match_error, same_kind, Error};
use crate::file::WalFile;
use crate::log::{
    all_chunks, first_from, last_upto, lemma_first_above_all, lemma_first_from, lemma_pop_keeps,
    lemma_popped_failure, listed, named, names_of, ordered, reclaimable, LogState, Popped,
};
use crate::names::{format_file_name, is_chunk_name, is_file_name, parse_file_name};
use crate::order::{
    lemma_ack_in_order, lemma_empty_log_in_order, lemma_pop_in_order, lemma_push_in_order,
};
use crate::recovery::{can_revert, lemma_revert_in_order};
use vstd::prelude::*;

verus! {

/// A sequential write-ahead log that runs over several chunks and acts as
/// a queue.
///
/// The size is limitable by two options:
///
/// * `chunk_size` - soft limit of bytes each chunk can take
/// * `max_chunks` - soft limit of chunks that are allowed to exist at one time
///
/// It features four main operations:
///
/// 1) `push` - adds a new entry to the back of the log
/// 2) `pop` - reads an entry from the front of the queue
/// 3) `ack` - acknowledges an entry and all entries before it, which lets
///    their chunks go
/// 4) `revert` - goes back to the last acknowledged entry and reads on
///    from there
#[derive(Debug)]
pub struct Wal {
    /// The sealed chunks, oldest first: first index and bytes
    files: Vec<(u64, Vec<u8>)>,
    /// The first index of the chunk that is written to
    write_first: u64,
    read_file: Option<WalFile>,
    /// The first index of the chunk that is read from
    read_first: u64,
    write_file: WalFile,
    chunk_size: u64,
    max_chunks: usize,
}

/// The chunks of a list as mathematical values.
pub open spec fn images(files: Seq<(u64, Vec<u8>)>) -> Seq<(u64, Seq<u8>)> {
    Seq::new(files.len(), |i: int| (files[i].0, files[i].1@))
}

impl View for Wal {
    type V = LogState;

    closed spec fn view(&self) -> LogState {
        LogState {
            sealed: images(self.files@),
            write_first: self.write_first,
            write: self.write_file@,
            read: match self.read_file {
                Some(read) => Some(read@),
                None => None,
            },
            read_first: self.read_first,
            chunk_size: self.chunk_size,
            max_chunks: self.max_chunks,
        }
    }
}

/// The position of the first chunk of `files` that begins at `bound` or
/// above; the number of chunks where there is none.
fn find_first(files: &Vec<(u64, Vec<u8>)>, bound: u64) -> (at: usize)
    ensures
        at == first_from(images(files@), 0, bound as int),
        at <= files@.len(),
{
    let mut i: usize = 0;
    while i < files.len()
        invariant
            i <= files@.len(),
            first_from(images(files@), 0, bound as int) == first_from(
                images(files@),
                i as int,
                bound as int,
            ),
        decreases files@.len() - i,
    {
        if files[i].0 >= bound {
            return i;
        }
        i += 1;
    }
    i
}

impl Wal {
    /// What holds of every log that this library hands out.
    pub open spec fn wf(&self) -> bool {
        self@.wf()
    }

    /// Appends `data` as the next entry of the log and returns its index.
    /// A push that takes the last chunk over `chunk_size` starts a new
    /// chunk, unless the log holds more than `max_chunks` already: then
    /// the entry is written and the push fails.
    pub fn push_bytes(&mut self, data: Vec<u8>) -> (r: Result<u64, Error>)
        requires
            old(self).wf(),
            old(self)@.write.next_idx_to_write < u64::MAX,
            old(self)@.write.file.len() + 32 + data@.len() <= usize::MAX,
        ensures
            final(self).wf(),
            final(self)@ == old(self)@.pushed(data@),
            if old(self)@.push_refused(data@) {
                r matches Err(Error::SizeExceeded)
            } else {
                r matches Ok(idx) && idx == old(self)@.write.next_idx_to_write
            },
            old(self)@.in_order() ==> {
                &&& final(self)@.in_order()
                &&& final(self)@.pending() == old(self)@.pending().push(
                    (old(self)@.write.next_idx_to_write, data@),
                )
            },
    {
        proof {
            if self@.in_order() {
                lemma_push_in_order(self@, data@);
            }
        }
        let idx = self.write_file.push_bytes(data);
        if self.write_file.size() > self.chunk_size {
            if self.files.len() >= self.max_chunks {
                return Err(Error::SizeExceeded);
            }
            let mut next_wal = self.write_file.successor();
            std::mem::swap(&mut next_wal, &mut self.write_file);
            self.write_file.preserve_ack();
            let first = self.write_first;
            self.write_first = next_wal.next_idx_to_write();
            let sealed = next_wal.bytes().clone();
            assert(sealed@ =~= next_wal@.file);
            let ghost before = self.files@;
            self.files.push((first, sealed));
            assert(images(self.files@) =~= images(before).push((first, next_wal@.file)));
            if self.read_file.is_none() {
                self.read_file = Some(next_wal);
                self.read_first = first;
            }
        }
        Ok(idx)
    }

    /// Push a new entry into the log. An entry that does not serialize
    /// leaves the log as it was.
    pub fn push<E>(&mut self, data: E) -> (r: Result<u64, Error<E::Error>>) where E: Entry
        requires
            old(self).wf(),
            old(self)@.write.next_idx_to_write < u64::MAX,
            data.encoded() matches Some(bytes) ==> old(self)@.write.file.len() + 32 + bytes.len()
                <= usize::MAX,
        ensures
            final(self).wf(),
            match data.encoded() {
                Some(bytes) => {
                    &&& final(self)@ == old(self)@.pushed(bytes)
                    &&& if old(self)@.push_refused(bytes) {
                        r matches Err(Error::SizeExceeded)
                    } else {
                        r matches Ok(idx) && idx == old(self)@.write.next_idx_to_write
                    }
                    &&& old(self)@.in_order() ==> final(self)@.pending()
                        == old(self)@.pending().push(
                        (old(self)@.write.next_idx_to_write, bytes),
                    )
                },
                None => r matches Err(Error::Entry(_)) && final(self)@ == old(self)@,
            },
            old(self)@.in_order() ==> final(self)@.in_order(),
    {
        match data.serialize() {
            Ok(bytes) => match self.push_bytes(bytes) {
                Ok(idx) => Ok(idx),
                Err(e) => Err(match_error(e)),
            },
            Err(e) => Err(Error::Entry(e)),
        }
    }

    /// The position of the first sealed chunk that begins at `bound` or
    /// above
    fn find_first(&self, bound: u64) -> (at: usize)
        ensures
            at == first_from(self@.sealed, 0, bound as int),
            at <= self@.sealed.len(),
    {
        find_first(&self.files, bound)
    }

    /// Seeks to a given index in the log. A seek before the first chunk
    /// fails with `InvalidIndex`.
    pub fn seek_to(&mut self, idx: u64) -> (r: Result<(), Error>)
        requires
            old(self).wf(),
        ensures
            final(self).wf(),
            final(self)@ == old(self)@.sought(idx).0,
            match old(self)@.sought(idx).1 {
                None => r matches Ok(_),
                Some(e) => r matches Err(x) && x == e,
            },
    {
        if idx >= self.write_first {
            self.read_file = None;
            return self.write_file.seek_to(idx);
        }
        let mut i: usize = self.files.len();
        while i > 0 && self.files[i - 1].0 > idx
            invariant
                i <= self.files@.len(),
                self@ == old(self)@,
                last_upto(self@.sealed, self@.sealed.len() as int, idx) == last_upto(
                    self@.sealed,
                    i as int,
                    idx,
                ),
            decreases i,
        {
            i -= 1;
        }
        if i == 0 {
            return Err(Error::InvalidIndex);
        }
        let image = self.files[i - 1].1.clone();
        assert(image@ =~= self@.sealed[i - 1].1);
        match WalFile::open(image) {
            Err(e) => Err(e),
            Ok(chunk) => {
                let mut read_file = chunk;
                match read_file.seek_to(idx) {
                    Err(e) => Err(e),
                    Ok(()) => {
                        self.read_first = self.files[i - 1].0;
                        self.read_file = Some(read_file);
                        Ok(())
                    },
                }
            },
        }
    }

    /// Reverts the read index back to the next item after the last
    /// acknowledged index.
    pub fn revert(&mut self) -> (r: Result<(), Error>)
        requires
            old(self).wf(),
        ensures
            final(self).wf(),
            final(self)@ == old(self)@.reverted().0,
            match old(self)@.reverted().1 {
                None => r matches Ok(_),
                Some(e) => r matches Err(x) && x == e,
            },
            old(self)@.in_order() && can_revert(old(self)@) ==> r is Ok && final(self)@.in_order()
                && final(self)@.pending() == old(self)@.all_entries().skip(
                old(self)@.write.ack_idx - old(self)@.first_before(),
            ),
    {
        proof {
            if self@.in_order() && can_revert(self@) {
                lemma_revert_in_order(self@);
            }
        }
        let idx = self.write_file.ack_idx() + 1;
        self.seek_to(idx)
    }

    /// Acknowledges an entry, and all before it, as completely processed.
    /// The index has to lie above the last acknowledged one and below the
    /// read index. The acknowledgement is persisted with the next push,
    /// with the next chunk, or when the log is closed. Chunks in which
    /// every index is acknowledged are let go.
    pub fn ack(&mut self, id: u64) -> (r: Result<(), Error>)
        requires
            old(self).wf(),
        ensures
            final(self).wf(),
            if old(self)@.can_ack(id) {
                r matches Ok(_) && final(self)@ == old(self)@.acked(id)
            } else {
                r matches Err(Error::InvalidAckId) && final(self)@ == old(self)@
            },
            old(self)@.in_order() ==> {
                &&& final(self)@.in_order()
                &&& final(self)@.pending() == old(self)@.pending()
            },
    {
        proof {
            if self@.in_order() && self@.can_ack(id) {
                lemma_ack_in_order(self@, id);
            }
        }
        if self.read_idx() <= id || self.write_file.ack_idx() >= id {
            return Err(Error::InvalidAckId);
        }
        self.write_file.ack(id);
        let ghost chunks = old(self)@.chunks();
        let ghost sealed = old(self)@.sealed;
        let mut cnt: usize = 0;
        assert(chunks.subrange(0, chunks.len() as int) =~= chunks);
        while cnt < self.files.len() && self.chunk_index(cnt + 1) <= id
            invariant
                cnt <= self.files@.len(),
                images(self.files@) == sealed,
                self.write_first == old(self)@.write_first,
                chunks == sealed.push((self.write_first, old(self)@.write.file)),
                chunks.len() == self@.chunks().len(),
                forall|i: int|
                    0 <= i < chunks.len() ==> (#[trigger] chunks[i]).0 == self@.chunks()[i].0,
                reclaimable(chunks, id) == cnt + reclaimable(
                    chunks.subrange(cnt as int, chunks.len() as int),
                    id,
                ),
            decreases self.files@.len() - cnt,
        {
            let ghost rest = chunks.subrange(cnt as int, chunks.len() as int);
            assert(rest.drop_first() =~= chunks.subrange(cnt + 1, chunks.len() as int));
            assert(rest[1] == chunks[cnt + 1]);
            cnt += 1;
        }
        proof {
            let rest = chunks.subrange(cnt as int, chunks.len() as int);
            if cnt < self.files@.len() {
                assert(rest[1] == chunks[cnt + 1]);
            }
            assert(reclaimable(rest, id) == 0);
        }
        if cnt > 0 {
            let kept = self.files.split_off(cnt);
            self.files = kept;
            assert(images(self.files@) =~= sealed.subrange(cnt as int, sealed.len() as int));
        } else {
            assert(images(self.files@) =~= sealed.subrange(0, sealed.len() as int));
        }
        Ok(())
    }

    /// Opens a log over the files of its directory, each given by its name
    /// and its bytes; without a file, an empty log is made.
    ///
    /// - `chunk_size` is the soft limit of bytes per chunk: a new chunk is
    ///   started once an entry takes the last one over it.
    /// - `max_chunks` is the soft limit of the number of chunks: with
    ///   more, no new chunk is started.
    ///
    /// A file whose name is not that of a chunk file fails the call with
    /// `NotAFile`.
    pub fn open(files: Vec<(String, Vec<u8>)>, chunk_size: u64, max_chunks: usize) -> (r: Result<
        Wal,
        Error,
    >)
        ensures
            if !all_chunks(named(files@)) {
                r matches Err(Error::NotAFile)
            } else {
                match LogState::opened(ordered(listed(named(files@))), chunk_size, max_chunks) {
                    Ok(log) => r matches Ok(wal) && wal@ == log && wal.wf(),
                    Err(e) => r matches Err(x) && x == e,
                }
            },
            files@.len() == 0 ==> (r matches Ok(wal) && wal@.in_order() && wal@.pending().len()
                == 0 && wal@.write.next_idx_to_write == 1),
    {
        proof {
            lemma_empty_log_in_order(chunk_size, max_chunks);
            if files@.len() == 0 {
                assert(ordered(listed(named(files@))) =~= Seq::empty());
            }
        }
        let ghost all = named(files@);
        let mut input = files;
        let mut chunks: Vec<(u64, Vec<u8>)> = Vec::new();
        assert(listed(all).subrange(all.len() as int, all.len() as int) =~= Seq::empty());
        while input.len() > 0
            invariant
                all == named(files@),
                input@.len() <= all.len(),
                named(input@) == all.subrange(0, input@.len() as int),
                forall|i: int| input@.len() <= i < all.len() ==> is_chunk_name(#[trigger] all[i].0),
                images(chunks@) == ordered(
                    listed(all).subrange(input@.len() as int, all.len() as int),
                ),
            decreases input@.len(),
        {
            let ghost before = input@;
            let ghost n = input@.len() - 1;
            let (name, bytes) = input.pop().unwrap();
            assert(named(before)[n] == (name@, bytes@));
            assert(all[n] == (name@, bytes@));
            assert(named(input@) =~= all.subrange(0, n));
            match parse_file_name(name.as_str()) {
                None => {
                    assert(!is_chunk_name(all[n].0));
                    return Err(Error::NotAFile);
                },
                Some(idx) => {
                    let ghost rest = listed(all).subrange(n + 1, all.len() as int);
                    let ghost more = listed(all).subrange(n, all.len() as int);
                    assert(more.drop_first() =~= rest);
                    assert(more[0] == (idx, bytes@));
                    let at = find_first(&chunks, idx);
                    let ghost sorted = chunks@;
                    chunks.insert(at, (idx, bytes));
                    assert(images(chunks@) =~= images(sorted).insert(at as int, (idx, bytes@)));
                },
            }
        }
        assert(listed(all).subrange(0, all.len() as int) =~= listed(all));
        assert(all_chunks(all));
        let ghost whole = images(chunks@);
        match chunks.pop() {
            None => {
                assert(images(chunks@) =~= Seq::empty());
                Ok(
                    Wal {
                        files: chunks,
                        write_first: 0,
                        read_file: None,
                        read_first: 0,
                        write_file: WalFile::open(Vec::new()).unwrap(),
                        chunk_size,
                        max_chunks,
                    },
                )
            },
            Some((first, image)) => {
                assert(whole.last() == (first, image@));
                assert(images(chunks@) =~= whole.drop_last());
                match WalFile::open(image) {
                    Err(e) => Err(e),
                    Ok(write_file) => {
                        let next_idx_to_read = write_file.next_idx_to_read();
                        let mut wal = Wal {
                            files: chunks,
                            write_first: first,
                            read_file: None,
                            read_first: 0,
                            write_file,
                            chunk_size,
                            max_chunks,
                        };
                        match wal.seek_to(next_idx_to_read) {
                            Ok(()) => Ok(wal),
                            Err(e) => Err(e),
                        }
                    },
                }
            },
        }
    }

    /// Closes the log and hands back the files of its directory, each by
    /// its name and its bytes, oldest first. The acknowledged index is
    /// persisted in the last chunk where that did not hold it yet.
    pub fn close(self) -> (files: Vec<(String, Vec<u8>)>)
        requires
            self.wf(),
            self@.write.file.len() + 32 <= usize::MAX,
        ensures
            names_of(files@, self@.closed()),
    {
        let ghost closed = self@.closed();
        let mut sealed = self.files;
        let mut files: Vec<(String, Vec<u8>)> = Vec::new();
        let ghost all = sealed@;
        while sealed.len() > 0
            invariant
                files@.len() + sealed@.len() == all.len(),
                sealed@ == all.subrange(files@.len() as int, all.len() as int),
                names_of(files@, images(all).subrange(0, files@.len() as int)),
            decreases sealed@.len(),
        {
            let ghost n = files@.len() as int;
            let (first, image) = sealed.remove(0);
            assert(all[n] == (first, image));
            files.push((format_file_name(first), image));
            assert(sealed@ =~= all.subrange(n + 1, all.len() as int));
        }
        let image = self.write_file.close();
        files.push((format_file_name(self.write_first), image));
        files
    }

    /// The position of the last chunk, the one that is written to; the
    /// chunks before it are the sealed ones, counted from the oldest.
    pub fn last_chunk(&self) -> (at: usize)
        ensures
            at == self@.chunks().len() - 1,
    {
        self.files.len()
    }

    /// Whether a payload of `len` bytes can be pushed: the log has an
    /// index left for it, and its frame fits behind the last chunk.
    pub fn fits(&self, len: usize) -> (b: bool)
        requires
            self.wf(),
        ensures
            b <==> self@.write.next_idx_to_write < u64::MAX && self@.write.file.len() + 32 + len
                <= usize::MAX,
    {
        let size = self.write_file.bytes().len();
        self.write_file.next_idx_to_write() < u64::MAX && size <= usize::MAX - 32 && len
            <= usize::MAX - 32 - size
    }

    /// The index that the next push gets
    pub fn next_idx_to_write(&self) -> (idx: u64)
        ensures
            idx == self@.write.next_idx_to_write,
    {
        self.write_file.next_idx_to_write()
    }

    /// The index up to which entries are acknowledged
    pub fn ack_idx(&self) -> (idx: u64)
        ensures
            idx == self@.write.ack_idx,
    {
        self.write_file.ack_idx()
    }

    /// The first index of the chunk at position `at`, counted from the
    /// oldest
    pub fn chunk_index(&self, at: usize) -> (first: u64)
        requires
            at < self@.chunks().len(),
        ensures
            first == self@.chunks()[at as int].0,
    {
        if at < self.files.len() {
            self.files[at].0
        } else {
            self.write_first
        }
    }

    /// The name of the file of the chunk at position `at`, counted from
    /// the oldest
    pub fn chunk_name(&self, at: usize) -> (name: String)
        requires
            at < self@.chunks().len(),
        ensures
            is_file_name(name@, self@.chunks()[at as int].0),
    {
        format_file_name(self.chunk_index(at))
    }

    /// The bytes of the chunk at position `at`, counted from the oldest
    pub fn chunk_bytes(&self, at: usize) -> (bytes: &Vec<u8>)
        requires
            at < self@.chunks().len(),
        ensures
            bytes@ == self@.chunks()[at as int].1,
    {
        if at < self.files.len() {
            &self.files[at].1
        } else {
            self.write_file.bytes()
        }
    }

    /// Takes the next entry out of the log. `Ok(None)` says that no entry
    /// is left to read.
    pub fn pop_bytes(&mut self) -> (r: Result<Option<(u64, Vec<u8>)>, Error>)
        requires
            old(self).wf(),
        ensures
            final(self).wf(),
            final(self)@ == old(self)@.popped().0,
            match old(self)@.popped().1 {
                Popped::Entry { idx, data } => r matches Ok(Some(e)) && e.0 == idx && e.1@ == data,
                Popped::Nothing => r matches Ok(None),
                Popped::Failed(err) => r matches Err(x) && x == err,
            },
            r matches Ok(Some(e)) ==> final(self)@.read_idx() == e.0 + 1,
            final(self)@.sealed == old(self)@.sealed,
            final(self)@.write_first == old(self)@.write_first,
            final(self)@.chunk_size == old(self)@.chunk_size,
            final(self)@.max_chunks == old(self)@.max_chunks,
            final(self)@.write.file == old(self)@.write.file,
            final(self)@.write.next_idx_to_write == old(self)@.write.next_idx_to_write,
            final(self)@.write.ack_idx == old(self)@.write.ack_idx,
            old(self)@.in_order() ==> final(self)@.in_order() && match r {
                Ok(Some(e)) => old(self)@.pending().len() > 0 && old(self)@.pending()[0] == (
                    e.0,
                    e.1@,
                ) && final(self)@.pending() == old(self)@.pending().drop_first(),
                Ok(None) => old(self)@.pending().len() == 0 && final(self)@.pending().len() == 0,
                Err(_) => false,
            },
    {
        proof {
            lemma_pop_keeps(self@);
            if self@.in_order() {
                lemma_pop_in_order(self@);
            }
        }
        loop
            invariant
                self.wf(),
                self@.popped() == old(self)@.popped(),
                old(self)@.pop_keeps(),
                old(self)@.in_order() ==> old(self)@.pops_first(),
            ensures
                self@.read is None,
            decreases
                    (if self@.read is Some {
                        1nat
                    } else {
                        0nat
                    }),
                    u64::MAX - self@.read_first,
        {
            match &mut self.read_file {
                None => {
                    break ;
                },
                Some(read) => {
                    match read.pop_bytes() {
                        Err(e) => {
                            return Err(e);
                        },
                        Ok(Some(entry)) => {
                            return Ok(Some(entry));
                        },
                        Ok(None) => {},
                    }
                },
            }
            let next_idx_to_read = self.read_idx();
            let ghost bound: int = if next_idx_to_read > self@.read_first {
                next_idx_to_read as int
            } else {
                self@.read_first + 1
            };
            let at = if next_idx_to_read > self.read_first {
                self.find_first(next_idx_to_read)
            } else if self.read_first < u64::MAX {
                self.find_first(self.read_first + 1)
            } else {
                proof {
                    lemma_first_above_all(self@.sealed, 0);
                }
                self.files.len()
            };
            if at < self.files.len() {
                let image = self.files[at].1.clone();
                assert(image@ =~= self@.sealed[at as int].1);
                match WalFile::open(image) {
                    Ok(chunk) => {
                        proof {
                            lemma_first_from(self@.sealed, 0, bound);
                        }
                        self.read_first = self.files[at].0;
                        self.read_file = Some(chunk);
                    },
                    Err(e) => {
                        return Err(e);
                    },
                }
            } else {
                self.read_file = None;
            }
        }
        self.write_file.pop_bytes()
    }

    /// Pop an entry from the log, `Ok(None)` if none is left to read. The
    /// read cursor moves behind the entry also where its payload does not
    /// deserialize.
    pub fn pop<E>(&mut self) -> (r: Result<Option<(u64, E::Output)>, Error<E::Error>>) where
        E: Entry,

        requires
            old(self).wf(),
        ensures
            final(self).wf(),
            final(self)@ == old(self)@.popped().0,
            match old(self)@.popped().1 {
                Popped::Entry { idx, data } => if E::decodable(data) {
                    r matches Ok(Some(e)) && e.0 == idx && E::decodes(data, e.1)
                } else {
                    r matches Err(Error::Entry(_))
                },
                Popped::Nothing => r matches Ok(None),
                Popped::Failed(err) => r matches Err(x) && same_kind(err, x),
            },
            r matches Ok(Some(e)) ==> final(self)@.read_idx() == e.0 + 1,
            final(self)@.sealed == old(self)@.sealed,
            final(self)@.write_first == old(self)@.write_first,
            final(self)@.chunk_size == old(self)@.chunk_size,
            final(self)@.max_chunks == old(self)@.max_chunks,
            final(self)@.write.file == old(self)@.write.file,
            final(self)@.write.next_idx_to_write == old(self)@.write.next_idx_to_write,
            final(self)@.write.ack_idx == old(self)@.write.ack_idx,
            old(self)@.in_order() ==> final(self)@.in_order() && match r {
                Ok(Some(e)) => {
                    &&& old(self)@.pending().len() > 0
                    &&& old(self)@.pending()[0].0 == e.0
                    &&& E::decodes(old(self)@.pending()[0].1, e.1)
                    &&& final(self)@.pending() == old(self)@.pending().drop_first()
                },
                Ok(None) => old(self)@.pending().len() == 0 && final(self)@.pending().len() == 0,
                Err(e) => {
                    &&& e is Entry
                    &&& old(self)@.pending().len() > 0
                    &&& !E::decodable(old(self)@.pending()[0].1)
                    &&& final(self)@.pending() == old(self)@.pending().drop_first()
                },
            },
    {
        match self.pop_bytes() {
            Err(e) => {
                proof {
                    lemma_popped_failure(old(self)@);
                }
                Err(match_error(e))
            },
            Ok(None) => Ok(None),
            Ok(Some((idx, data))) => match E::deserialize(data) {
                Ok(out) => Ok(Some((idx, out))),
                Err(e) => Err(Error::Entry(e)),
            },
        }
    }

    /// Current read index
    pub fn read_idx(&self) -> (idx: u64)
        ensures
            idx == self@.read_idx(),
    {
        if let Some(read_file) = &self.read_file {
            read_file.next_idx_to_read()
        } else {
            self.write_file.next_idx_to_read()
        }
    }
}

} // verus!
