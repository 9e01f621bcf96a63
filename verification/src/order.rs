use crate::chain::{
    chain, entries, entry_of, lemma_chain_ack, lemma_chain_append, lemma_chain_entries,
    lemma_chain_from, lemma_chain_next, lemma_level, lemma_opened_in_order, lemma_passes_extend,
    lemma_passes_positions, lemma_passes_through, lemma_tail_appended, lemma_tip_grows, passes,
    step, tail_record, tip,
};
use crate::file::{next_data, FileState, Next};
use crate::log::{first_from, lemma_first_from, lemma_reclaimable, reclaimable, LogState, Popped};
use crate::record::{lemma_frame_len, parse, Record};
use vstd::prelude::*;

verus! {

/// The index of the last entry before a chunk that begins at `first`.
pub open spec fn before(first: u64) -> int {
    if first == 0 {
        0
    } else {
        first - 1
    }
}

/// The first index of the chunk behind position `at`; for the last chunk,
/// the index that the next push gets.
pub open spec fn next_first(chunks: Seq<(u64, Seq<u8>)>, at: int, next_idx_to_write: u64) -> int {
    if at + 1 < chunks.len() {
        chunks[at + 1].0 as int
    } else {
        next_idx_to_write as int
    }
}

/// Whether the chunk at position `at` is in order: its records are, its
/// entries end before the chunk behind it begins, and unless it begins at
/// index 0, its first record is an acknowledgement.
pub open spec fn chunk_in_order(
    chunks: Seq<(u64, Seq<u8>)>,
    at: int,
    next_idx_to_write: u64,
    ack: int,
) -> bool {
    &&& chain(chunks[at].1, 0, before(chunks[at].0), ack)
    &&& tip(chunks[at].1, 0, before(chunks[at].0)) + 1 == next_first(chunks, at, next_idx_to_write)
    &&& 0 < chunks[at].1.len() <= u64::MAX || at == chunks.len() - 1
    &&& chunks[at].0 >= 1 ==> begins_with_ack(chunks[at].1)
}

/// Whether the first record of a chunk is an acknowledgement.
pub open spec fn begins_with_ack(file: Seq<u8>) -> bool {
    parse(file, 0) is Found && parse(file, 0)->Found_0 is Ack
}

/// The entries of the chunks from position `from` on.
pub open spec fn entries_from(chunks: Seq<(u64, Seq<u8>)>, from: int) -> Seq<(u64, Seq<u8>)>
    decreases chunks.len() - from,
{
    if from < 0 || from >= chunks.len() {
        Seq::empty()
    } else {
        entries(chunks[from].1, 0) + entries_from(chunks, from + 1)
    }
}

impl LogState {
    /// The index of the last entry before the chunk that is written to.
    pub open spec fn write_before(self) -> int {
        before(self.write_first)
    }

    /// The position of the sealed chunk that is read from.
    pub open spec fn read_at(self) -> int {
        first_from(self.sealed, 0, self.read_first as int)
    }

    /// The position of the first sealed chunk behind the one that is read
    /// from.
    pub open spec fn read_behind(self) -> int {
        first_from(self.sealed, 0, self.read_first + 1)
    }

    /// The entries that pops are still to return, in their order: what is
    /// left of the chunk that is read from, the sealed chunks behind it,
    /// and what is left of the chunk that is written to.
    pub open spec fn pending(self) -> Seq<(u64, Seq<u8>)> {
        match self.read {
            None => self.write.unread(),
            Some(read) => read.unread() + entries_from(self.sealed, self.read_behind())
                + self.write.unread(),
        }
    }

    /// Whether the chunks of the log are in order: they begin at ascending
    /// indices, each holds the entries from its first index up to the
    /// chunk behind it, and only the first of them begins at or below the
    /// acknowledged index.
    pub open spec fn chunks_in_order(self) -> bool {
        let chunks = self.chunks();
        let ack = self.write.ack_idx as int;
        &&& forall|i: int, j: int| 0 <= i < j < chunks.len() ==> chunks[i].0 < chunks[j].0
        &&& forall|j: int|
            0 <= j < chunks.len() ==> #[trigger] chunk_in_order(
                chunks,
                j,
                self.write.next_idx_to_write,
                ack,
            )
        &&& forall|j: int| 1 <= j < chunks.len() ==> (#[trigger] chunks[j]).0 > ack
        &&& before(chunks[0].0) <= ack
    }

    /// Whether the log is in order, as every log is that began empty and
    /// was pushed to, popped from, acknowledged, closed and opened again:
    /// its chunks are in order, the last record of the chunk that is
    /// written to holds the acknowledged index that counts as written, the
    /// read pointers stand between records, nothing is acknowledged that
    /// was not read, and while a sealed chunk is read from, no entry of the
    /// last chunk is read.
    pub open spec fn in_order(self) -> bool {
        let ack = self.write.ack_idx as int;
        &&& self.wf()
        &&& self.chunks_in_order()
        &&& self.write.in_order(self.write_before(), ack)
        &&& self.write.file.len() <= u64::MAX
        &&& if self.write.file.len() > 0 {
            tail_record(self.write.file).ack_idx() == self.write.ack_written
        } else {
            self.write_first == 0 && self.write.ack_written == 0 && self.write.ack_idx == 0
        }
        &&& match self.read {
            None => ack <= self.write.read_level(self.write_before()),
            Some(read) => {
                &&& 0 <= self.read_at() < self.sealed.len()
                &&& self.sealed[self.read_at()].0 == self.read_first
                &&& read.file == self.sealed[self.read_at()].1
                &&& read.in_order(before(self.read_first), ack)
                &&& ack <= read.read_level(before(self.read_first))
                &&& self.write.read_level(self.write_before()) == self.write_before()
            },
        }
    }
}

/// Among chunks that begin at ascending indices, the first that begins at
/// `bound` or above is the one that all chunks below `bound` stand before.
pub proof fn lemma_first_from_is(chunks: Seq<(u64, Seq<u8>)>, bound: int, at: int)
    requires
        0 <= at <= chunks.len(),
        forall|j: int| 0 <= j < at ==> (#[trigger] chunks[j]).0 < bound,
        at < chunks.len() ==> chunks[at].0 >= bound,
    ensures
        first_from(chunks, 0, bound) == at,
{
    lemma_first_from(chunks, 0, bound);
    let found = first_from(chunks, 0, bound);
    if found < at {
        assert(chunks[found].0 < bound);
    } else if found > at {
        assert(chunks[at].0 < bound);
    }
}

/// A new last chunk adds its entries behind those of the chunks before
/// it.
pub proof fn lemma_entries_from_push(chunks: Seq<(u64, Seq<u8>)>, from: int, chunk: (u64, Seq<u8>))
    requires
        0 <= from <= chunks.len(),
    ensures
        entries_from(chunks.push(chunk), from) == entries_from(chunks, from) + entries(chunk.1, 0),
    decreases chunks.len() - from,
{
    let longer = chunks.push(chunk);
    if from == chunks.len() {
        assert(entries_from(longer, from + 1) =~= Seq::empty());
        assert(entries_from(chunks, from) =~= Seq::empty());
        assert(entries_from(longer, from) =~= entries(chunk.1, 0));
    } else {
        lemma_entries_from_push(chunks, from + 1, chunk);
        assert(longer[from] == chunks[from]);
        assert(entries_from(longer, from) =~= entries_from(chunks, from) + entries(chunk.1, 0));
    }
}

/// Chunks that are let go at the front take no entry from the chunks that
/// stay.
pub proof fn lemma_entries_from_kept(chunks: Seq<(u64, Seq<u8>)>, gone: int, from: int)
    requires
        0 <= gone <= from <= chunks.len(),
    ensures
        entries_from(chunks.subrange(gone, chunks.len() as int), from - gone) == entries_from(
            chunks,
            from,
        ),
    decreases chunks.len() - from,
{
    let kept = chunks.subrange(gone, chunks.len() as int);
    if from < chunks.len() {
        lemma_entries_from_kept(chunks, gone, from + 1);
        assert(kept[from - gone] == chunks[from]);
    }
}

/// Between two positions of a walk at which the same index is reached
/// stands no entry.
pub proof fn lemma_entries_same_level(bytes: Seq<u8>, at: int, last: int, to: int)
    requires
        passes(bytes, at, last, to, last),
    ensures
        entries(bytes, at) == entries(bytes, to),
    decreases bytes.len() - at,
{
    if at < to {
        let here = parse(bytes, at)->Found_0;
        crate::record::lemma_parse_found(bytes, at);
        lemma_passes_positions(bytes, at + here.size(), step(last, here), to, last);
        lemma_entries_same_level(bytes, at + here.size(), last, to);
    }
}

/// In a chunk in order, the index reached at the read pointer is not
/// above the index of the last entry, and the part behind the read pointer
/// is in order.
pub proof fn lemma_read_level(s: FileState, first_before: int, ack: int)
    requires
        s.in_order(first_before, ack),
    ensures
        first_before <= s.read_level(first_before) <= tip(s.file, 0, first_before),
        chain(s.file, s.read_pointer as int, s.read_level(first_before), ack),
        tip(s.file, s.read_pointer as int, s.read_level(first_before)) == tip(
            s.file,
            0,
            first_before,
        ),
{
    let l = s.read_level(first_before);
    lemma_chain_from(s.file, 0, first_before, ack, s.read_pointer as int, l);
    lemma_tip_grows(s.file, s.read_pointer as int, l);
    lemma_passes_positions(s.file, 0, first_before, s.read_pointer as int, l);
}

/// An empty log is in order, and nothing is pending in it.
pub proof fn lemma_empty_log_in_order(chunk_size: u64, max_chunks: usize)
    ensures
        LogState::opened(Seq::empty(), chunk_size, max_chunks) is Ok,
        LogState::opened(Seq::empty(), chunk_size, max_chunks)->Ok_0.in_order(),
        LogState::opened(Seq::empty(), chunk_size, max_chunks)->Ok_0.pending() == Seq::<
            (u64, Seq<u8>),
        >::empty(),
        LogState::opened(Seq::empty(), chunk_size, max_chunks)->Ok_0.write.next_idx_to_write == 1,
{
    let s = LogState::opened(Seq::empty(), chunk_size, max_chunks)->Ok_0;
    let chunks = s.chunks();
    assert(chunks.len() == 1);
    assert(chunks[0] == (0u64, Seq::<u8>::empty()));
    assert(parse(Seq::<u8>::empty(), 0) is End);
    assert(chunk_in_order(chunks, 0, 1, 0));
    assert(passes(s.write.file, 0, 0, 0, 0));
    lemma_level(s.write.file, 0, 0, 0, 0);
}

/// In a log in order, less is acknowledged than was written.
pub proof fn lemma_ack_below_write(s: LogState)
    requires
        s.in_order(),
    ensures
        s.write.ack_idx < s.write.next_idx_to_write,
        tip(s.write.file, 0, s.write_before()) + 1 == s.write.next_idx_to_write,
        s.write_first <= s.write.next_idx_to_write,
{
    let chunks = s.chunks();
    let last = chunks.len() - 1;
    assert(chunk_in_order(chunks, last, s.write.next_idx_to_write, s.write.ack_idx as int));
    lemma_read_level(s.write, s.write_before(), s.write.ack_idx as int);
    if s.read is Some {
        assert(chunks[last].0 > s.write.ack_idx);
    }
}

/// A log in order is in order when an entry is written to its last chunk,
/// and the entry is pending behind all that were.
#[verifier::rlimit(50)]
pub proof fn lemma_written_in_order(s: LogState, data: Seq<u8>)
    requires
        s.in_order(),
        s.write.next_idx_to_write < u64::MAX,
        s.write.file.len() + 32 + data.len() <= u64::MAX,
    ensures
        s.written(data).in_order(),
        s.written(data).pending() == s.pending().push((s.write.next_idx_to_write, data)),
        s.written(data).write.file.len() > 0,
        s.written(data).write_first < s.written(data).write.next_idx_to_write,
{
    let w = s.written(data);
    let rec = s.write.next_record(data);
    let ack = s.write.ack_idx as int;
    let b = s.write_before();
    let l = s.write.read_level(b);
    let file = s.write.file;
    let longer = w.write.file;
    let rp = s.write.read_pointer as int;
    lemma_ack_below_write(s);
    lemma_read_level(s.write, b, ack);
    lemma_frame_len(rec);
    lemma_chain_append(file, 0, b, ack, rec);
    lemma_chain_append(file, rp, l, ack, rec);
    lemma_passes_extend(file, rec.frame(), 0, b, rp, l);
    lemma_level(longer, 0, b, rp, l);
    lemma_tail_appended(file, rec);
    lemma_tip_grows(file, 0, b);
    assert(entry_of(rec) =~= seq![(s.write.next_idx_to_write, data)]);
    let chunks = s.chunks();
    let after = w.chunks();
    assert forall|j: int| 0 <= j < after.len() implies #[trigger] chunk_in_order(
        after,
        j,
        w.write.next_idx_to_write,
        ack,
    ) by {
        assert(chunk_in_order(chunks, j, s.write.next_idx_to_write, ack));
        if j + 1 < after.len() {
            assert(after[j] == chunks[j]);
            assert(after[j + 1].0 == chunks[j + 1].0);
        }
    }
    assert forall|i: int, j: int| 0 <= i < j < after.len() implies after[i].0 < after[j].0 by {
        assert(chunks[i].0 < chunks[j].0);
    }
    assert forall|j: int| 1 <= j < after.len() implies (#[trigger] after[j]).0 > ack by {
        assert(chunks[j].0 > ack);
    }
    assert(after[0].0 == chunks[0].0);
    assert(w.chunks_in_order());
    match s.read {
        None => {
            assert(w.pending() =~= s.pending().push((s.write.next_idx_to_write, data)));
        },
        Some(read) => {
            assert(w.pending() =~= s.pending().push((s.write.next_idx_to_write, data)));
        },
    }
}

/// A log in order whose last chunk holds an entry is in order after a
/// rotation, and the same entries are pending.
#[verifier::rlimit(50)]
pub proof fn lemma_rotated_in_order(s: LogState)
    requires
        s.in_order(),
        s.write.file.len() > 0,
        s.write_first < s.write.next_idx_to_write,
    ensures
        s.rotated().in_order(),
        s.rotated().pending() == s.pending(),
{
    let r = s.rotated();
    let ack = s.write.ack_idx as int;
    let b = s.write_before();
    let next = s.write.next_idx_to_write;
    let marker = s.write.successor().ack_record();
    let chunks = s.chunks();
    let after = r.chunks();
    lemma_ack_below_write(s);
    lemma_read_level(s.write, b, ack);
    lemma_frame_len(marker);
    let none = Seq::<u8>::empty();
    assert(parse(none, 0) is End);
    assert(chain(none, 0, next - 1, ack));
    assert(tip(none, 0, next - 1) == next - 1);
    lemma_chain_append(none, 0, next - 1, ack, marker);
    lemma_tail_appended(none, marker);
    assert(none + marker.frame() =~= marker.frame());
    assert(r.write.file =~= marker.frame());
    assert(passes(r.write.file, 0, next - 1, 0, next - 1));
    lemma_level(r.write.file, 0, next - 1, 0, next - 1);
    assert(entry_of(marker) =~= Seq::<(u64, Seq<u8>)>::empty());
    assert(entries(none, 0) =~= Seq::<(u64, Seq<u8>)>::empty());
    assert(r.write.unread() =~= Seq::<(u64, Seq<u8>)>::empty());
    assert(r.sealed =~= chunks);
    assert forall|j: int| 0 <= j < after.len() implies #[trigger] chunk_in_order(
        after,
        j,
        r.write.next_idx_to_write,
        ack,
    ) by {
        if j < chunks.len() {
            assert(chunk_in_order(chunks, j, next, ack));
            assert(after[j] == chunks[j]);
            if j + 1 < chunks.len() {
                assert(after[j + 1] == chunks[j + 1]);
            }
        }
    }
    assert forall|i: int, j: int| 0 <= i < j < after.len() implies after[i].0 < after[j].0 by {
        if j < chunks.len() {
            assert(chunks[i].0 < chunks[j].0);
        } else if i < chunks.len() - 1 {
            assert(chunks[i].0 < chunks[chunks.len() - 1].0);
        }
    }
    assert forall|j: int| 1 <= j < after.len() implies (#[trigger] after[j]).0 > ack by {
        if j < chunks.len() {
            assert(chunks[j].0 > ack);
        }
    }
    assert(after[0] == chunks[0]);
    assert(r.chunks_in_order());
    match s.read {
        None => {
            let at = s.sealed.len() as int;
            assert forall|j: int| 0 <= j < at implies (#[trigger] r.sealed[j]).0
                < s.write_first by {
                assert(chunks[j].0 < chunks[at].0);
            }
            lemma_first_from_is(r.sealed, s.write_first as int, at);
            lemma_first_from_is(r.sealed, s.write_first + 1, at + 1);
            assert(entries_from(r.sealed, at + 1) =~= Seq::<(u64, Seq<u8>)>::empty());
            assert(r.pending() =~= s.pending());
        },
        Some(read) => {
            let at = s.read_at();
            lemma_first_from(s.sealed, 0, s.read_first as int);
            assert forall|j: int| 0 <= j < at implies (#[trigger] r.sealed[j]).0
                < s.read_first by {
                assert(s.sealed[j].0 < s.read_first);
            }
            assert(r.sealed[at] == s.sealed[at]);
            lemma_first_from_is(r.sealed, s.read_first as int, at);
            let behind = s.read_behind();
            lemma_first_from(s.sealed, 0, s.read_first + 1);
            assert forall|j: int| 0 <= j < behind implies (#[trigger] r.sealed[j]).0
                < s.read_first + 1 by {
                assert(s.sealed[j].0 < s.read_first + 1);
            }
            if behind < s.sealed.len() {
                assert(r.sealed[behind] == s.sealed[behind]);
            } else {
                assert(chunks[at].0 < chunks[s.sealed.len() as int].0);
            }
            lemma_first_from_is(r.sealed, s.read_first + 1, behind);
            lemma_entries_from_push(s.sealed, behind, (s.write_first, s.write.file));
            assert(r.sealed =~= s.sealed.push((s.write_first, s.write.file)));
            lemma_entries_same_level(s.write.file, 0, b, s.write.read_pointer as int);
            assert(r.pending() =~= s.pending());
        },
    }
}

/// A push to a log in order leaves the log in order, and the entry is
/// pending behind all that were: pops return the entries in the order of
/// their pushes.
pub proof fn lemma_push_in_order(s: LogState, data: Seq<u8>)
    requires
        s.in_order(),
        s.write.next_idx_to_write < u64::MAX,
        s.write.file.len() + 32 + data.len() <= u64::MAX,
    ensures
        s.pushed(data).in_order(),
        s.pushed(data).pending() == s.pending().push((s.write.next_idx_to_write, data)),
        s.pushed(data).write.next_idx_to_write == s.write.next_idx_to_write + 1,
        s.pushed(data).write.ack_idx == s.write.ack_idx,
{
    lemma_written_in_order(s, data);
    let written = s.written(data);
    if written.over_size() && !written.over_count() {
        lemma_rotated_in_order(written);
    }
}

/// A pop from a chunk in order finds the first of the entries that are
/// left to read, and leaves the chunk in order with the rest of them; where
/// none is left, the read pointer goes to the end of the chunk.
pub proof fn lemma_chunk_popped(c: FileState, first_before: int, ack: int)
    requires
        c.in_order(first_before, ack),
        tip(c.file, 0, first_before) < u64::MAX,
    ensures
        c.popped().in_order(first_before, ack),
        c.popped() == (FileState {
            read_pointer: c.popped().read_pointer,
            next_idx_to_read: c.popped().next_idx_to_read,
            ..c
        }),
        match next_data(c.file, c.read_pointer as int) {
            Next::Entry { idx, data, .. } => {
                &&& c.unread() == seq![(idx, data)] + c.popped().unread()
                &&& c.popped().read_level(first_before) == c.read_level(first_before) + 1
                &&& idx == c.read_level(first_before) + 1
            },
            Next::Nothing { .. } => {
                &&& c.unread() == Seq::<(u64, Seq<u8>)>::empty()
                &&& c.popped().unread() == Seq::<(u64, Seq<u8>)>::empty()
                &&& c.popped().read_level(first_before) == c.read_level(first_before)
                &&& c.popped().next_idx_to_read == c.next_idx_to_read
            },
            _ => false,
        },
{
    let l = c.read_level(first_before);
    let rp = c.read_pointer as int;
    lemma_read_level(c, first_before, ack);
    lemma_chain_next(c.file, rp, l, ack);
    match next_data(c.file, rp) {
        Next::Entry { idx, data, end } => {
            lemma_passes_through(c.file, 0, first_before, rp, l, end, l + 1);
            lemma_level(c.file, 0, first_before, end, l + 1);
            lemma_chain_from(c.file, 0, first_before, ack, end, l + 1);
            lemma_tip_grows(c.file, end, l + 1);
        },
        Next::Nothing { end } => {
            lemma_passes_through(c.file, 0, first_before, rp, l, end, l);
            lemma_level(c.file, 0, first_before, end, l);
            assert(parse(c.file, end) is End);
            assert(entries(c.file, end) =~= Seq::<(u64, Seq<u8>)>::empty());
        },
        _ => {},
    }
}

/// In a log in order that reads from a sealed chunk, that chunk is
/// followed by the chunk at the next position, which begins at or above
/// the read index.
pub proof fn lemma_read_chunk(s: LogState)
    requires
        s.in_order(),
        s.read is Some,
    ensures
        s.read_behind() == s.read_at() + 1,
        tip(s.read->Some_0.file, 0, before(s.read_first)) + 1 == s.chunks()[s.read_at() + 1].0,
        s.read->Some_0.next_idx_to_read <= s.chunks()[s.read_at() + 1].0,
        s.read_first < s.chunks()[s.read_at() + 1].0,
        s.write.ack_idx < s.chunks()[s.read_at() + 1].0,
{
    let chunks = s.chunks();
    let at = s.read_at();
    let read = s.read->Some_0;
    assert(chunks[at] == s.sealed[at]);
    assert(chunk_in_order(chunks, at, s.write.next_idx_to_write, s.write.ack_idx as int));
    lemma_read_level(read, before(s.read_first), s.write.ack_idx as int);
    assert(chunks[at].0 < chunks[at + 1].0);
    assert forall|j: int| 0 <= j < at + 1 implies (#[trigger] s.sealed[j]).0 < s.read_first
        + 1 by {
        if j < at {
            assert(chunks[j].0 < chunks[at].0);
        }
    }
    if at + 1 < s.sealed.len() {
        assert(s.sealed[at + 1] == chunks[at + 1]);
    }
    lemma_first_from_is(s.sealed, s.read_first + 1, at + 1);
}

impl LogState {
    /// Whether a pop takes the first of the pending entries: it returns
    /// that entry and leaves the rest of them pending, or returns nothing
    /// where nothing is pending; it does not fail, and it leaves the log in
    /// order.
    pub open spec fn pops_first(self) -> bool {
        &&& self.popped().0.in_order()
        &&& match self.popped().1 {
            Popped::Entry { idx, data } => {
                &&& self.pending().len() > 0
                &&& self.pending()[0] == (idx, data)
                &&& self.popped().0.pending() == self.pending().drop_first()
            },
            Popped::Nothing => {
                &&& self.pending().len() == 0
                &&& self.popped().0.pending().len() == 0
            },
            Popped::Failed(_) => false,
        }
    }

    /// The log that reads on in the chunk behind the one that is read
    /// from: in the next sealed chunk, or in the chunk that is written to.
    pub open spec fn moved_on(self) -> LogState {
        let behind = self.read_at() + 1;
        if behind < self.sealed.len() {
            LogState {
                read: Some(FileState::opened(self.sealed[behind].1)->Ok_0),
                read_first: self.sealed[behind].0,
                ..self
            }
        } else {
            LogState { read: None, ..self }
        }
    }
}

/// A pop from the chunk that is written to, in a log in order that reads
/// from no sealed chunk, returns the first of the pending entries.
pub proof fn lemma_pop_write(s: LogState)
    requires
        s.in_order(),
        s.read is None,
    ensures
        s.pops_first(),
        s.popped().0.chunks() == s.chunks(),
        s.popped().0.write.ack_idx == s.write.ack_idx,
{
    let ack = s.write.ack_idx as int;
    let t = s.popped().0;
    lemma_ack_below_write(s);
    lemma_chunk_popped(s.write, s.write_before(), ack);
    assert(t.chunks() =~= s.chunks());
    match next_data(s.write.file, s.write.read_pointer as int) {
        Next::Entry { idx, data, .. } => {
            assert(s.pending().drop_first() =~= t.pending());
        },
        _ => {},
    }
}

/// Where a pop finds an entry in the sealed chunk that is read from, the
/// log that has read it is in order, and the entries behind it are
/// pending.
#[verifier::rlimit(50)]
pub proof fn lemma_drained_in_order(s: LogState)
    requires
        s.in_order(),
        s.read is Some,
        next_data(s.read->Some_0.file, s.read->Some_0.read_pointer as int) is Entry,
    ensures
        (LogState { read: Some(s.read->Some_0.popped()), ..s }).in_order(),
        s.pending().len() > 0,
        s.pending()[0] == (
            next_data(s.read->Some_0.file, s.read->Some_0.read_pointer as int)->Entry_idx,
            next_data(s.read->Some_0.file, s.read->Some_0.read_pointer as int)->Entry_data,
        ),
        (LogState { read: Some(s.read->Some_0.popped()), ..s }).pending()
            == s.pending().drop_first(),
{
    let ack = s.write.ack_idx as int;
    let read = s.read->Some_0;
    lemma_read_chunk(s);
    lemma_chunk_popped(read, before(s.read_first), ack);
    let drained = LogState { read: Some(read.popped()), ..s };
    let rest = entries_from(s.sealed, s.read_behind()) + s.write.unread();
    let next = next_data(read.file, read.read_pointer as int);
    let idx = next->Entry_idx;
    let data = next->Entry_data;
    assert(drained.chunks() =~= s.chunks());
    assert(drained.chunks_in_order());
    assert(drained.read_at() == s.read_at());
    assert(drained.read_behind() == s.read_behind());
    assert(s.pending() =~= seq![(idx, data)] + (read.popped().unread() + rest));
    assert(drained.pending() =~= read.popped().unread() + rest);
    assert(s.pending().drop_first() =~= drained.pending());
}

/// A pop that finds an entry in the sealed chunk that is read from, in a
/// log in order, returns the first of the pending entries.
pub proof fn lemma_pop_read(s: LogState)
    requires
        s.in_order(),
        s.read is Some,
        next_data(s.read->Some_0.file, s.read->Some_0.read_pointer as int) is Entry,
    ensures
        s.pops_first(),
        s.popped().0.chunks() == s.chunks(),
        s.popped().0.write.ack_idx == s.write.ack_idx,
{
    let read = s.read->Some_0;
    let drained = LogState { read: Some(read.popped()), ..s };
    let next = next_data(read.file, read.read_pointer as int);
    lemma_drained_in_order(s);
    assert(s.popped().0 == drained);
    assert(s.popped().1 == (Popped::Entry { idx: next->Entry_idx, data: next->Entry_data }));
    assert(drained.chunks() =~= s.chunks());
}

/// Where the sealed chunk that is read from holds no further entry, a pop
/// from a log in order goes on as a pop from the log that reads on in the
/// chunk behind it; that log is in order, and the same entries are
/// pending in it.
pub proof fn lemma_pop_moves_on(s: LogState)
    requires
        s.in_order(),
        s.read is Some,
        next_data(s.read->Some_0.file, s.read->Some_0.read_pointer as int) is Nothing,
    ensures
        s.popped() == s.moved_on().popped(),
        s.moved_on().in_order(),
        s.moved_on().pending() == s.pending(),
        s.moved_on().chunks() == s.chunks(),
        s.moved_on().write.ack_idx == s.write.ack_idx,
        s.moved_on().read is None || s.moved_on().read_first > s.read_first,
{
    let ack = s.write.ack_idx as int;
    let chunks = s.chunks();
    let read = s.read->Some_0;
    let at = s.read_at();
    let behind = at + 1;
    lemma_read_chunk(s);
    lemma_chunk_popped(read, before(s.read_first), ack);
    let drained = LogState { read: Some(read.popped()), ..s };
    let next_idx_to_read = read.popped().next_idx_to_read;
    let bound = if next_idx_to_read > s.read_first {
        next_idx_to_read as int
    } else {
        s.read_first + 1
    };
    assert forall|j: int| 0 <= j < behind implies (#[trigger] s.sealed[j]).0 < bound by {
        if j < at {
            assert(chunks[j].0 < chunks[at].0);
        }
    }
    if behind < s.sealed.len() {
        assert(s.sealed[behind] == chunks[behind]);
    }
    lemma_first_from_is(s.sealed, bound, behind);
    assert(drained.next_chunk(next_idx_to_read) == behind);
    if behind < s.sealed.len() {
        lemma_moved_to_sealed(s);
    } else {
        lemma_moved_to_write(s);
    }
}

/// The log that reads on in the next sealed chunk is in order, and the
/// same entries are pending in it.
pub proof fn lemma_moved_to_sealed(s: LogState)
    requires
        s.in_order(),
        s.read is Some,
        s.read->Some_0.unread() == Seq::<(u64, Seq<u8>)>::empty(),
        s.read_at() + 1 < s.sealed.len(),
    ensures
        FileState::opened(s.sealed[s.read_at() + 1].1) is Ok,
        s.moved_on().in_order(),
        s.moved_on().pending() == s.pending(),
        s.moved_on().chunks() == s.chunks(),
        s.moved_on().read_first > s.read_first,
{
    let ack = s.write.ack_idx as int;
    let chunks = s.chunks();
    let behind = s.read_at() + 1;
    let image = s.sealed[behind].1;
    let first = s.sealed[behind].0;
    let moved = s.moved_on();
    lemma_read_chunk(s);
    assert(s.sealed[behind] == chunks[behind]);
    assert(chunk_in_order(chunks, behind, s.write.next_idx_to_write, ack));
    assert(chunks[behind].0 > ack);
    lemma_opened_in_order(image, before(first), ack);
    crate::chain::lemma_chain_tail(image, 0, before(first), ack);
    let chunk = FileState::opened(image)->Ok_0;
    assert(chunk.read_level(before(first)) == before(first));
    assert forall|j: int| 0 <= j < behind implies (#[trigger] s.sealed[j]).0 < first by {
        assert(chunks[j].0 < chunks[behind].0);
    }
    lemma_first_from_is(s.sealed, first as int, behind);
    assert(moved.chunks() =~= chunks);
    assert(moved.chunks_in_order());
    assert(moved.in_order());
    lemma_read_chunk(moved);
    lemma_entries_same_level(image, 0, before(first), chunk.read_pointer as int);
    assert(entries_from(s.sealed, behind) =~= entries(image, 0) + entries_from(
        s.sealed,
        behind + 1,
    ));
    assert(moved.pending() =~= s.pending());
}

/// The log that reads on in the chunk that is written to is in order, and
/// the same entries are pending in it.
pub proof fn lemma_moved_to_write(s: LogState)
    requires
        s.in_order(),
        s.read is Some,
        s.read->Some_0.unread() == Seq::<(u64, Seq<u8>)>::empty(),
        s.read_at() + 1 == s.sealed.len(),
    ensures
        s.moved_on().in_order(),
        s.moved_on().pending() == s.pending(),
        s.moved_on().chunks() == s.chunks(),
        s.moved_on().read is None,
{
    let ack = s.write.ack_idx as int;
    let chunks = s.chunks();
    let behind = s.read_at() + 1;
    let moved = s.moved_on();
    lemma_read_chunk(s);
    assert(moved.chunks() =~= chunks);
    assert(chunks[behind].0 > ack);
    assert(passes(s.write.file, 0, s.write_before(), 0, s.write_before()));
    lemma_level(s.write.file, 0, s.write_before(), 0, s.write_before());
    assert(moved.chunks_in_order());
    assert(moved.in_order());
    assert(entries_from(s.sealed, behind) =~= Seq::<(u64, Seq<u8>)>::empty());
    assert(moved.pending() =~= s.pending());
}

/// A pop from a log in order returns the first of the pending entries and
/// leaves the log in order with the rest of them pending; where nothing is
/// pending, it returns nothing. It does not fail, and it changes no chunk.
pub proof fn lemma_pop_in_order(s: LogState)
    requires
        s.in_order(),
    ensures
        s.pops_first(),
        s.popped().0.chunks() == s.chunks(),
        s.popped().0.write.ack_idx == s.write.ack_idx,
    decreases
            (if s.read is Some {
                1nat
            } else {
                0nat
            }),
            u64::MAX - s.read_first,
{
    match s.read {
        None => {
            lemma_pop_write(s);
        },
        Some(read) => {
            lemma_read_chunk(s);
            lemma_chunk_popped(read, before(s.read_first), s.write.ack_idx as int);
            match next_data(read.file, read.read_pointer as int) {
                Next::Entry { .. } => {
                    lemma_pop_read(s);
                },
                Next::Nothing { .. } => {
                    lemma_pop_moves_on(s);
                    lemma_pop_in_order(s.moved_on());
                },
                _ => {},
            }
        },
    }
}

/// In a log in order, the read index is not above the index behind the
/// last entry that was read, and an index that can be acknowledged is the
/// index of an entry that was read.
pub proof fn lemma_read_idx(s: LogState)
    requires
        s.in_order(),
    ensures
        match s.read {
            None => s.read_idx() <= s.write.read_level(s.write_before()) + 1,
            Some(read) => s.read_idx() <= read.read_level(before(s.read_first)) + 1,
        },
        s.write.file.len() == 0 ==> s.read_idx() <= 1 && s.sealed.len() == 0,
{
    if s.write.file.len() == 0 {
        let chunks = s.chunks();
        if s.sealed.len() > 0 {
            assert(chunks[0].0 < chunks[s.sealed.len() as int].0);
        }
        assert(passes(s.write.file, 0, s.write_before(), 0, s.write_before()));
        lemma_level(s.write.file, 0, s.write_before(), 0, s.write_before());
    }
}

/// The chunks of a log in order are in order when more is acknowledged
/// and the chunks that this lets go are gone.
pub proof fn lemma_acked_chunks(s: LogState, id: u64)
    requires
        s.in_order(),
        s.can_ack(id),
    ensures
        s.acked(id).chunks() == s.chunks().subrange(
            reclaimable(s.chunks(), id) as int,
            s.chunks().len() as int,
        ),
        s.acked(id).chunks_in_order(),
        s.read is Some ==> reclaimable(s.chunks(), id) <= s.read_at(),
{
    let t = s.acked(id);
    let ack = s.write.ack_idx as int;
    let chunks = s.chunks();
    let gone = reclaimable(chunks, id) as int;
    let kept = t.chunks();
    let next = s.write.next_idx_to_write;
    lemma_reclaimable(chunks, id);
    lemma_read_idx(s);
    assert(kept =~= chunks.subrange(gone, chunks.len() as int));
    assert forall|j: int| 0 <= j < kept.len() implies #[trigger] chunk_in_order(
        kept,
        j,
        next,
        id as int,
    ) by {
        assert(chunk_in_order(chunks, j + gone, next, ack));
        assert(kept[j] == chunks[j + gone]);
        if j + 1 < kept.len() {
            assert(kept[j + 1] == chunks[j + 1 + gone]);
        }
        lemma_chain_ack(kept[j].1, 0, before(kept[j].0), ack, id as int);
    }
    assert forall|i: int, j: int| 0 <= i < j < kept.len() implies kept[i].0 < kept[j].0 by {
        assert(chunks[i + gone].0 < chunks[j + gone].0);
    }
    assert forall|j: int| 1 <= j < kept.len() implies (#[trigger] kept[j]).0 > id by {
        if j > 1 {
            assert(chunks[gone + 1].0 < chunks[j + gone].0);
        }
    }
    if gone > 0 {
        assert(chunks[gone - 1 + 1].0 <= id);
    }
    if s.read is Some {
        let at = s.read_at();
        lemma_read_chunk(s);
        lemma_read_level(s.read->Some_0, before(s.read_first), ack);
        if gone > at {
            assert(chunks[at + 1].0 <= id);
        }
    }
}

/// An acknowledgement that a log in order accepts leaves the log in
/// order, and the same entries are pending.
pub proof fn lemma_ack_in_order(s: LogState, id: u64)
    requires
        s.in_order(),
        s.can_ack(id),
    ensures
        s.acked(id).in_order(),
        s.acked(id).pending() == s.pending(),
{
    let t = s.acked(id);
    let ack = s.write.ack_idx as int;
    let chunks = s.chunks();
    let gone = reclaimable(chunks, id) as int;
    lemma_acked_chunks(s, id);
    lemma_reclaimable(chunks, id);
    lemma_read_idx(s);
    lemma_chain_ack(s.write.file, 0, s.write_before(), ack, id as int);
    assert(t.write.read_level(t.write_before()) == s.write.read_level(s.write_before()));
    match s.read {
        None => {},
        Some(read) => {
            let at = s.read_at();
            lemma_read_chunk(s);
            lemma_first_from(s.sealed, 0, s.read_first as int);
            lemma_chain_ack(read.file, 0, before(s.read_first), ack, id as int);
            assert forall|j: int| 0 <= j < at - gone implies (#[trigger] t.sealed[j]).0
                < s.read_first by {
                assert(t.sealed[j] == s.sealed[j + gone]);
                assert(chunks[j + gone].0 < chunks[at].0);
            }
            assert(t.sealed[at - gone] == s.sealed[at]);
            lemma_first_from_is(t.sealed, s.read_first as int, at - gone);
            assert forall|j: int| 0 <= j < at + 1 - gone implies (#[trigger] t.sealed[j]).0
                < s.read_first + 1 by {
                assert(t.sealed[j] == s.sealed[j + gone]);
                if j + gone < at {
                    assert(chunks[j + gone].0 < chunks[at].0);
                }
            }
            if at + 1 < s.sealed.len() {
                assert(t.sealed[at + 1 - gone] == s.sealed[at + 1]);
                assert(chunks[at].0 < chunks[at + 1].0);
            }
            lemma_first_from_is(t.sealed, s.read_first + 1, at + 1 - gone);
            lemma_entries_from_kept(s.sealed, gone, at + 1);
            assert(t.pending() =~= s.pending());
        },
    }
}

/// A push to a fresh log followed by a pop returns the pushed payload
/// with index 1, the index that the push returns.
pub proof fn lemma_push_then_pop(chunk_size: u64, max_chunks: usize, data: Seq<u8>)
    requires
        32 + data.len() <= u64::MAX,
    ensures
        LogState::opened(Seq::empty(), chunk_size, max_chunks) is Ok,
        LogState::opened(Seq::empty(), chunk_size, max_chunks)->Ok_0.write.next_idx_to_write == 1,
        LogState::opened(Seq::empty(), chunk_size, max_chunks)->Ok_0.pushed(data).popped().1
            == (Popped::Entry { idx: 1, data }),
{
    let s = LogState::opened(Seq::empty(), chunk_size, max_chunks)->Ok_0;
    lemma_empty_log_in_order(chunk_size, max_chunks);
    lemma_push_in_order(s, data);
    lemma_pop_in_order(s.pushed(data));
    assert(s.pending().push((1u64, data))[0] == (1u64, data));
}

/// A pop from a fresh log returns nothing.
pub proof fn lemma_pop_empty(chunk_size: u64, max_chunks: usize)
    ensures
        LogState::opened(Seq::empty(), chunk_size, max_chunks) is Ok,
        LogState::opened(Seq::empty(), chunk_size, max_chunks)->Ok_0.popped().1
            == Popped::Nothing,
{
    lemma_empty_log_in_order(chunk_size, max_chunks);
    lemma_pop_in_order(LogState::opened(Seq::empty(), chunk_size, max_chunks)->Ok_0);
}

/// A push starts a new chunk exactly when it takes the last chunk over
/// `chunk_size` and the log holds no more than `max_chunks` chunks: then
/// the log has one chunk more, and the new chunk begins at the index
/// behind the one that was pushed. A push that fills the last chunk to
/// `chunk_size` exactly starts none.
pub proof fn lemma_push_chunks(s: LogState, data: Seq<u8>)
    requires
        s.write.next_idx_to_write < u64::MAX,
    ensures
        s.written(data).over_size() <==> s.write.pushed(data).write_offset > s.chunk_size,
        s.written(data).over_count() <==> s.chunks().len() > s.max_chunks,
        s.written(data).over_size() && !s.written(data).over_count() ==> {
            &&& s.pushed(data).chunks().len() == s.chunks().len() + 1
            &&& s.pushed(data).write_first == s.write.pushed(data).next_idx_to_write
            &&& s.pushed(data).sealed == s.sealed.push(
                (s.write_first, s.write.pushed(data).file),
            )
            &&& s.pushed(data).write.file == (Record::Ack {
                idx: s.write.next_idx_to_write,
                ack_idx: s.write.ack_idx,
            }).frame()
        },
        !(s.written(data).over_size() && !s.written(data).over_count()) ==> {
            &&& s.pushed(data).chunks().len() == s.chunks().len()
            &&& s.pushed(data).sealed == s.sealed
            &&& s.pushed(data).write == s.write.pushed(data)
        },
{
    let marker = Record::Ack { idx: s.write.next_idx_to_write, ack_idx: s.write.ack_idx };
    assert(Seq::<u8>::empty() + marker.frame() =~= marker.frame());
}

/// In a log in order, the cursors of the chunks are at rest: no more
/// counts as written than is acknowledged, less is acknowledged than was
/// written, and no read index lies above the index to write next.
pub proof fn lemma_at_rest(s: LogState)
    requires
        s.in_order(),
    ensures
        s.write.ack_written <= s.write.ack_idx < s.write.next_idx_to_write,
        s.write.next_idx_to_read <= s.write.next_idx_to_write,
        s.read_idx() <= s.write.next_idx_to_write,
{
    let ack = s.write.ack_idx as int;
    lemma_ack_below_write(s);
    lemma_read_level(s.write, s.write_before(), ack);
    if s.write.file.len() > 0 {
        crate::chain::lemma_chain_tail(s.write.file, 0, s.write_before(), ack);
    }
    if let Some(read) = s.read {
        lemma_read_chunk(s);
        lemma_read_level(read, before(s.read_first), ack);
        let chunks = s.chunks();
        let last = s.sealed.len() as int;
        if s.read_at() + 1 < last {
            assert(chunks[s.read_at() + 1].0 < chunks[last].0);
        }
    }
}

/// What is acknowledged cannot be acknowledged again.
pub proof fn lemma_ack_once(s: LogState, id: u64)
    ensures
        !s.can_ack(s.write.ack_idx),
        s.can_ack(id) ==> !s.acked(id).can_ack(id),
{
}

/// An acknowledgement lets go a chunk only where the chunk behind it
/// begins at or below the acknowledged index, so that every index in the
/// chunk is acknowledged. The last chunk stays, and so does every chunk
/// behind the first chunk that is followed by one which begins above the
/// acknowledged index.
pub proof fn lemma_ack_chunks(s: LogState, id: u64)
    ensures
        s.acked(id).chunks() == s.chunks().subrange(
            reclaimable(s.chunks(), id) as int,
            s.chunks().len() as int,
        ),
        s.acked(id).chunks().len() >= 1,
        forall|j: int|
            0 <= j < reclaimable(s.chunks(), id) ==> (#[trigger] s.chunks()[j + 1]).0 <= id,
        s.acked(id).chunks().len() >= 2 ==> s.acked(id).chunks()[1].0 > id,
{
    let chunks = s.chunks();
    lemma_reclaimable(chunks, id);
    assert(s.acked(id).chunks() =~= chunks.subrange(
        reclaimable(chunks, id) as int,
        chunks.len() as int,
    ));
}

/// In a log in order, an acknowledgement lets go only chunks whose entries
/// are all acknowledged by it, and of the chunks that stay, all but the
/// first hold only entries that it does not acknowledge.
pub proof fn lemma_ack_entries(s: LogState, id: u64)
    requires
        s.in_order(),
        s.can_ack(id),
    ensures
        forall|j: int, k: int|
            0 <= j < reclaimable(s.chunks(), id) && 0 <= k < entries(s.chunks()[j].1, 0).len()
                ==> (#[trigger] entries(s.chunks()[j].1, 0)[k]).0 <= id,
        forall|j: int, k: int|
            reclaimable(s.chunks(), id) < j < s.chunks().len() && 0 <= k < entries(
                s.chunks()[j].1,
                0,
            ).len() ==> (#[trigger] entries(s.chunks()[j].1, 0)[k]).0 > id,
{
    let chunks = s.chunks();
    let ack = s.write.ack_idx as int;
    let gone = reclaimable(chunks, id) as int;
    lemma_reclaimable(chunks, id);
    assert forall|j: int, k: int|
        0 <= j < gone && 0 <= k < entries(chunks[j].1, 0).len() implies (#[trigger] entries(
        chunks[j].1,
        0,
    )[k]).0 <= id by {
        assert(chunk_in_order(chunks, j, s.write.next_idx_to_write, ack));
        lemma_chain_entries(chunks[j].1, 0, before(chunks[j].0), ack);
        assert(chunks[j + 1].0 <= id);
    }
    assert forall|j: int, k: int|
        gone < j < chunks.len() && 0 <= k < entries(chunks[j].1, 0).len() implies (
    #[trigger] entries(chunks[j].1, 0)[k]).0 > id by {
        assert(chunk_in_order(chunks, j, s.write.next_idx_to_write, ack));
        lemma_chain_entries(chunks[j].1, 0, before(chunks[j].0), ack);
        if j > gone + 1 {
            assert(chunks[gone + 1].0 < chunks[j].0);
        }
        assert(chunks[j].0 > ack);
    }
}

} // verus!
