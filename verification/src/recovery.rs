use crate::chain::{
    chain, entries, entry_of, lemma_chain_append, lemma_chain_entries, lemma_entries_skip,
    lemma_level, lemma_opened_in_order, lemma_sought_in_order, lemma_tail_appended,
    lemma_tip_grows, passes, tail_record, tip,
};
use crate::error::Error;
use crate::file::FileState;
use crate::log::{
    all_chunks, last_upto, lemma_last_upto, lemma_names_listed, lemma_ordered_ascending, listed,
    named, names_of, ordered, LogState,
};
use crate::order::{
    before, chunk_in_order, entries_from, lemma_ack_below_write, lemma_entries_from_push,
    lemma_entries_same_level, lemma_first_from_is, lemma_pop_in_order, lemma_read_chunk,
    lemma_read_idx, lemma_read_level,
};
use crate::record::{lemma_frame_len, lemma_parse_extend, parse};
use vstd::prelude::*;

verus! {

impl LogState {
    /// The index of the last entry before the first chunk of the log.
    pub open spec fn first_before(self) -> int {
        before(self.chunks()[0].0)
    }

    /// All entries that the chunks of the log hold, in their order.
    pub open spec fn all_entries(self) -> Seq<(u64, Seq<u8>)> {
        entries_from(self.chunks(), 0)
    }

    /// The index of the last entry before the place that reading has come
    /// to.
    pub open spec fn read_level(self) -> int {
        match self.read {
            None => self.write.read_level(self.write_before()),
            Some(read) => read.read_level(before(self.read_first)),
        }
    }
}

/// Whether the chunks are in order one by one, and all but the first begin
/// above index 0.
pub open spec fn chunks_chained(
    chunks: Seq<(u64, Seq<u8>)>,
    next_idx_to_write: u64,
    ack: int,
) -> bool {
    &&& forall|j: int|
        0 <= j < chunks.len() ==> #[trigger] chunk_in_order(chunks, j, next_idx_to_write, ack)
    &&& forall|j: int| 1 <= j < chunks.len() ==> (#[trigger] chunks[j]).0 >= 1
}

/// The entries of chunks in order, from any of the chunks on, have the
/// indices from the first index of that chunk up to the last index that
/// was written, one by one.
pub proof fn lemma_entries_from_indices(
    chunks: Seq<(u64, Seq<u8>)>,
    next_idx_to_write: u64,
    ack: int,
    from: int,
)
    requires
        chunks_chained(chunks, next_idx_to_write, ack),
        0 <= from < chunks.len(),
    ensures
        entries_from(chunks, from).len() == next_idx_to_write - 1 - before(chunks[from].0),
        forall|k: int|
            0 <= k < entries_from(chunks, from).len() ==> (#[trigger] entries_from(
                chunks,
                from,
            )[k]).0 == before(chunks[from].0) + 1 + k,
    decreases chunks.len() - from,
{
    let here = entries(chunks[from].1, 0);
    let first_before = before(chunks[from].0);
    assert(chunk_in_order(chunks, from, next_idx_to_write, ack));
    lemma_chain_entries(chunks[from].1, 0, first_before, ack);
    if from + 1 < chunks.len() {
        lemma_entries_from_indices(chunks, next_idx_to_write, ack, from + 1);
        let rest = entries_from(chunks, from + 1);
        assert(chunks[from + 1].0 >= 1);
        assert forall|k: int| 0 <= k < entries_from(chunks, from).len() implies (
        #[trigger] entries_from(chunks, from)[k]).0 == first_before + 1 + k by {
            if k < here.len() {
                assert(entries_from(chunks, from)[k] == here[k]);
            } else {
                assert(entries_from(chunks, from)[k] == rest[k - here.len()]);
            }
        }
    } else {
        assert(entries_from(chunks, from + 1) =~= Seq::empty());
        assert(entries_from(chunks, from) =~= here);
    }
}

/// Without the entries up to an index that lies in a later chunk, the
/// entries from a chunk on are what that later chunk holds above the
/// index, and the entries of the chunks behind it.
pub proof fn lemma_skip_to(
    chunks: Seq<(u64, Seq<u8>)>,
    next_idx_to_write: u64,
    ack: int,
    from: int,
    at: int,
    reached: int,
)
    requires
        chunks_chained(chunks, next_idx_to_write, ack),
        0 <= from <= at < chunks.len(),
        before(chunks[at].0) <= reached <= tip(chunks[at].1, 0, before(chunks[at].0)),
    ensures
        before(chunks[from].0) <= reached,
        reached - before(chunks[from].0) <= entries_from(chunks, from).len(),
        entries_from(chunks, from).skip(reached - before(chunks[from].0)) == entries(
            chunks[at].1,
            0,
        ).skip(reached - before(chunks[at].0)) + entries_from(chunks, at + 1),
    decreases at - from,
{
    let here = entries(chunks[from].1, 0);
    let first_before = before(chunks[from].0);
    let rest = entries_from(chunks, from + 1);
    assert(chunk_in_order(chunks, from, next_idx_to_write, ack));
    lemma_chain_entries(chunks[from].1, 0, first_before, ack);
    lemma_tip_grows(chunks[from].1, 0, first_before);
    if from == at {
        assert(entries_from(chunks, from).skip(reached - first_before) =~= here.skip(
            reached - first_before,
        ) + rest);
    } else {
        assert(chunks[from + 1].0 >= 1);
        lemma_skip_to(chunks, next_idx_to_write, ack, from + 1, at, reached);
        assert(entries_from(chunks, from).skip(reached - first_before) =~= rest.skip(
            reached - before(chunks[from + 1].0),
        ));
    }
}

/// The chunks of a log in order are in order one by one.
pub proof fn lemma_chunks_chained(s: LogState)
    requires
        s.chunks_in_order(),
    ensures
        chunks_chained(s.chunks(), s.write.next_idx_to_write, s.write.ack_idx as int),
{
    let chunks = s.chunks();
    assert forall|j: int| 1 <= j < chunks.len() implies (#[trigger] chunks[j]).0 >= 1 by {
        assert(chunks[j].0 > s.write.ack_idx);
    }
}

/// In a log in order, the entries of the log are those with the indices
/// from the first index of the log up to the last index that was written,
/// and the pending entries are those above the index that reading has come
/// to.
pub proof fn lemma_pending(s: LogState)
    requires
        s.in_order(),
    ensures
        s.first_before() <= s.read_level() < s.write.next_idx_to_write,
        s.write.ack_idx <= s.read_level(),
        s.all_entries().len() == s.write.next_idx_to_write - 1 - s.first_before(),
        forall|k: int|
            0 <= k < s.all_entries().len() ==> (#[trigger] s.all_entries()[k]).0
                == s.first_before() + 1 + k,
        s.pending() == s.all_entries().skip(s.read_level() - s.first_before()),
{
    let chunks = s.chunks();
    let ack = s.write.ack_idx as int;
    let next = s.write.next_idx_to_write;
    let last = chunks.len() - 1;
    lemma_chunks_chained(s);
    lemma_ack_below_write(s);
    lemma_entries_from_indices(chunks, next, ack, 0);
    lemma_read_level(s.write, s.write_before(), ack);
    assert(chunks[last] == (s.write_first, s.write.file));
    match s.read {
        None => {
            let l = s.write.read_level(s.write_before());
            lemma_skip_to(chunks, next, ack, 0, last, l);
            lemma_entries_skip(
                s.write.file,
                0,
                s.write_before(),
                ack,
                s.write.read_pointer as int,
                l,
            );
            assert(entries_from(chunks, last + 1) =~= Seq::empty());
            assert(s.pending() =~= s.all_entries().skip(l - s.first_before()));
        },
        Some(read) => {
            let at = s.read_at();
            let l = read.read_level(before(s.read_first));
            lemma_read_chunk(s);
            lemma_read_level(read, before(s.read_first), ack);
            assert(chunks[at] == s.sealed[at]);
            lemma_skip_to(chunks, next, ack, 0, at, l);
            lemma_entries_skip(
                read.file,
                0,
                before(s.read_first),
                ack,
                read.read_pointer as int,
                l,
            );
            lemma_entries_from_push(s.sealed, at + 1, (s.write_first, s.write.file));
            lemma_entries_same_level(
                s.write.file,
                0,
                s.write_before(),
                s.write.read_pointer as int,
            );
            assert(s.sealed.push((s.write_first, s.write.file)) =~= chunks);
            assert(s.pending() =~= s.all_entries().skip(l - s.first_before()));
        },
    }
}

/// The greater of two indices.
pub open spec fn later(a: int, b: int) -> int {
    if a >= b {
        a
    } else {
        b
    }
}

/// What a seek in a log in order needs to leave the log in order: the
/// index lies above the acknowledged index, not above the index that the
/// next push gets, and not before the first chunk; and where it lies
/// before the last chunk, no entry of the last chunk is read.
pub open spec fn can_seek(s: LogState, idx: u64) -> bool {
    &&& s.write.ack_idx < idx <= s.write.next_idx_to_write
    &&& s.chunks()[0].0 <= idx
    &&& idx < s.write_first ==> s.write.read_level(s.write_before()) == s.write_before()
}

/// The first chunk of a log in order begins at or below the first index
/// of every chunk, and an index in the last chunk lies behind the entries
/// of all chunks before.
pub proof fn lemma_first_before(s: LogState)
    requires
        s.in_order(),
    ensures
        s.first_before() <= s.write_before(),
        s.sealed.len() > 0 ==> s.write_first >= 1,
        s.sealed.len() > 0 ==> s.write.file.len() > 0,
        s.sealed.len() == 0 ==> s.first_before() == s.write_before(),
{
    let chunks = s.chunks();
    if s.sealed.len() > 0 {
        assert(chunks[0].0 < chunks[s.sealed.len() as int].0);
    }
}

/// A seek to an index in the last chunk of a log in order succeeds and
/// leaves the log in order; reading has then come to the entry before
/// that index.
pub proof fn lemma_seek_write(s: LogState, idx: u64)
    requires
        s.in_order(),
        can_seek(s, idx),
        idx >= s.write_first,
    ensures
        s.sought(idx).1 is None,
        s.sought(idx).0.in_order(),
        s.sought(idx).0.chunks() == s.chunks(),
        s.sought(idx).0.write.ack_idx == s.write.ack_idx,
        s.sought(idx).0.write.next_idx_to_write == s.write.next_idx_to_write,
        s.sought(idx).0.read_level() == later(idx - 1, s.first_before()),
        s.write.file.len() > 0 ==> s.sought(idx).0.read_idx() == idx,
{
    let ack = s.write.ack_idx as int;
    let t = s.sought(idx).0;
    lemma_ack_below_write(s);
    lemma_first_before(s);
    lemma_sought_in_order(s.write, s.write_before(), ack, idx);
    lemma_tip_grows(s.write.file, 0, s.write_before());
    assert(t.chunks() =~= s.chunks());
    assert(t.chunks_in_order());
}

/// A seek to an index before the last chunk of a log in order succeeds
/// and leaves the log in order; reading has then come to the entry before
/// that index.
pub proof fn lemma_seek_sealed(s: LogState, idx: u64)
    requires
        s.in_order(),
        can_seek(s, idx),
        idx < s.write_first,
    ensures
        s.sought(idx).1 is None,
        s.sought(idx).0.in_order(),
        s.sought(idx).0.chunks() == s.chunks(),
        s.sought(idx).0.write.ack_idx == s.write.ack_idx,
        s.sought(idx).0.write.next_idx_to_write == s.write.next_idx_to_write,
        s.sought(idx).0.read_level() == later(idx - 1, s.first_before()),
        s.sought(idx).0.read_idx() == idx,
{
    let ack = s.write.ack_idx as int;
    let chunks = s.chunks();
    let t = s.sought(idx).0;
    let at = last_upto(s.sealed, s.sealed.len() as int, idx);
    lemma_ack_below_write(s);
    lemma_first_before(s);
    lemma_last_upto(s.sealed, s.sealed.len() as int, idx);
    assert(s.sealed.len() > 0);
    assert(s.sealed[0] == chunks[0]);
    assert(at >= 0);
    let image = s.sealed[at].1;
    let first = s.sealed[at].0;
    assert(chunks[at] == s.sealed[at]);
    assert(chunk_in_order(chunks, at, s.write.next_idx_to_write, ack));
    if at + 1 < s.sealed.len() {
        assert(s.sealed[at + 1] == chunks[at + 1]);
    }
    assert(chunks[at + 1].0 > idx);
    if at > 0 {
        assert(chunks[at].0 > ack);
        assert(chunks[0].0 < chunks[at].0);
    }
    lemma_opened_in_order(image, before(first), ack);
    let chunk = FileState::opened(image)->Ok_0;
    lemma_sought_in_order(chunk, before(first), ack, idx);
    lemma_tip_grows(image, 0, before(first));
    let found = chunk.sought(idx)->Ok_0;
    assert(t == LogState { read: Some(found), read_first: first, ..s });
    assert forall|j: int| 0 <= j < at implies (#[trigger] s.sealed[j]).0 < first by {
        assert(chunks[j].0 < chunks[at].0);
    }
    lemma_first_from_is(s.sealed, first as int, at);
    assert(t.chunks() =~= chunks);
    assert(t.chunks_in_order());
    assert(t.in_order());
}

/// A seek that a log in order can take succeeds and leaves the log in
/// order, with the chunks as they were. Reading has then come to the entry
/// before the index sought, so that the entries from that index on are
/// pending.
pub proof fn lemma_seek_in_order(s: LogState, idx: u64)
    requires
        s.in_order(),
        can_seek(s, idx),
    ensures
        s.sought(idx).1 is None,
        s.sought(idx).0.in_order(),
        s.sought(idx).0.chunks() == s.chunks(),
        s.sought(idx).0.write.ack_idx == s.write.ack_idx,
        s.sought(idx).0.write.next_idx_to_write == s.write.next_idx_to_write,
        s.sought(idx).0.read_level() == later(idx - 1, s.first_before()),
        s.sought(idx).0.pending() == s.all_entries().skip(
            later(idx - 1, s.first_before()) - s.first_before(),
        ),
        s.write.file.len() > 0 ==> s.sought(idx).0.read_idx() == idx,
{
    if idx >= s.write_first {
        lemma_seek_write(s, idx);
    } else {
        lemma_seek_sealed(s, idx);
    }
    lemma_pending(s.sought(idx).0);
}

/// What a revert needs to read all entries again that are not
/// acknowledged: where the first of them lies in a sealed chunk, no entry of
/// the last chunk is read. A revert does not move the read pointer of the
/// last chunk where it reads on in a sealed chunk, so entries of the last
/// chunk that were read are not read again.
pub open spec fn can_revert(s: LogState) -> bool {
    s.write.ack_idx + 1 < s.write_first ==> s.write.read_level(s.write_before())
        == s.write_before()
}

/// A revert that a log in order can take succeeds and leaves the log in
/// order, with all entries above the acknowledged index pending.
pub proof fn lemma_revert_in_order(s: LogState)
    requires
        s.in_order(),
        can_revert(s),
    ensures
        s.reverted().1 is None,
        s.reverted().0.in_order(),
        s.reverted().0.chunks() == s.chunks(),
        s.reverted().0.write.ack_idx == s.write.ack_idx,
        s.reverted().0.write.next_idx_to_write == s.write.next_idx_to_write,
        s.reverted().0.pending() == s.all_entries().skip(s.write.ack_idx - s.first_before()),
{
    lemma_ack_below_write(s);
    lemma_seek_in_order(s, (s.write.ack_idx + 1) as u64);
}

/// A revert behind a pop that returned the first entry that is not
/// acknowledged makes the next pop return that entry again.
pub proof fn lemma_revert_redelivers(s: LogState)
    requires
        s.in_order(),
        s.popped().1 is Entry,
        s.popped().1->Entry_idx == s.write.ack_idx + 1,
    ensures
        s.popped().0.reverted().1 is None,
        s.popped().0.reverted().0.in_order(),
        s.popped().0.reverted().0.popped().1 == s.popped().1,
{
    let p = s.popped().0;
    let ack = s.write.ack_idx as int;
    lemma_pop_in_order(s);
    lemma_pending(s);
    lemma_pending(p);
    assert(p.all_entries() == s.all_entries());
    assert(p.first_before() == s.first_before());
    let all = s.all_entries();
    let first_before = s.first_before();
    assert(s.pending()[0] == all[s.read_level() - first_before]);
    assert(s.read_level() == ack);
    assert(s.pending().drop_first().len() == all.len() - (s.read_level() - first_before) - 1);
    assert(p.read_level() == ack + 1);
    lemma_first_before(p);
    if p.read is None && ack + 1 < p.write_first {
        lemma_read_level(p.write, p.write_before(), ack);
    }
    lemma_revert_in_order(p);
    let r = p.reverted().0;
    assert(r.pending() == s.pending());
    lemma_pop_in_order(r);
}

impl LogState {
    /// The log that the chunks which this log leaves behind open to.
    pub open spec fn reopened(self) -> Result<LogState, Error> {
        LogState::opened(ordered(self.closed()), self.chunk_size, self.max_chunks)
    }

    /// The log over the chunks that this log leaves behind, before reading
    /// is set to the read index of the last chunk.
    pub open spec fn resumed(self) -> LogState {
        LogState {
            write: FileState::opened(self.write.closed())->Ok_0,
            read: None,
            read_first: 0,
            ..self
        }
    }
}

/// The last chunk that a log in order leaves behind is in order, holds the
/// entries that it held, and ends in a record with the acknowledged index
/// of the log.
pub proof fn lemma_closed_chunk(s: LogState)
    requires
        s.in_order(),
        s.write.file.len() + 32 <= u64::MAX,
    ensures
        chain(s.write.closed(), 0, s.write_before(), s.write.ack_idx as int),
        tip(s.write.closed(), 0, s.write_before()) == tip(s.write.file, 0, s.write_before()),
        entries(s.write.closed(), 0) == entries(s.write.file, 0),
        s.write.closed().len() <= u64::MAX,
        s.write.closed().len() == 0 <==> s.write.file.len() == 0,
        s.write.closed().len() > 0 ==> tail_record(s.write.closed()).ack_idx() == s.write.ack_idx,
        s.write.file.len() > 0 ==> parse(s.write.closed(), 0) == parse(s.write.file, 0),
{
    let ack = s.write.ack_idx as int;
    let file = s.write.file;
    lemma_ack_below_write(s);
    if s.write.ack_written != s.write.ack_idx {
        let marker = s.write.ack_record();
        lemma_frame_len(marker);
        lemma_chain_append(file, 0, s.write_before(), ack, marker);
        lemma_tail_appended(file, marker);
        assert(entry_of(marker) =~= Seq::<(u64, Seq<u8>)>::empty());
        assert(entries(file, 0) + entry_of(marker) =~= entries(file, 0));
        if file.len() > 0 {
            crate::record::lemma_parse_found(file, 0);
            lemma_parse_extend(file, marker.frame(), 0);
        }
    }
}

/// The log over the chunks that a log in order leaves behind is in order
/// before reading is set: it has the entries, the acknowledged index and
/// the index to write next of the log that was closed.
pub proof fn lemma_resumed_in_order(s: LogState)
    requires
        s.in_order(),
        s.write.file.len() + 32 <= u64::MAX,
        s.write.file.len() > 0,
    ensures
        FileState::opened(s.write.closed()) is Ok,
        s.resumed().in_order(),
        s.resumed().all_entries() == s.all_entries(),
        s.resumed().first_before() == s.first_before(),
        s.resumed().write.ack_idx == s.write.ack_idx,
        s.resumed().write.next_idx_to_write == s.write.next_idx_to_write,
        s.resumed().write.file == s.write.closed(),
        can_seek(s.resumed(), s.resumed().write.next_idx_to_read),
        s.write.ack_idx + 1 >= s.write_before() ==> s.resumed().write.next_idx_to_read
            == s.write.ack_idx + 1,
{
    let ack = s.write.ack_idx as int;
    let image = s.write.closed();
    let first_before = s.write_before();
    let l = s.resumed();
    let chunks = s.chunks();
    let after = l.chunks();
    let last = chunks.len() - 1;
    lemma_ack_below_write(s);
    lemma_first_before(s);
    lemma_closed_chunk(s);
    lemma_opened_in_order(image, first_before, ack);
    lemma_tip_grows(image, 0, first_before);
    lemma_read_level(l.write, first_before, ack);
    assert(chunk_in_order(chunks, last, s.write.next_idx_to_write, ack));
    assert forall|j: int| 0 <= j < after.len() implies #[trigger] chunk_in_order(
        after,
        j,
        l.write.next_idx_to_write,
        ack,
    ) by {
        assert(chunk_in_order(chunks, j, s.write.next_idx_to_write, ack));
        if j + 1 < after.len() {
            assert(after[j] == chunks[j]);
            assert(after[j + 1].0 == chunks[j + 1].0);
        }
    }
    assert forall|i: int, j: int| 0 <= i < j < after.len() implies after[i].0 < after[j].0 by {
        assert(chunks[i].0 < chunks[j].0);
    }
    assert forall|j: int| 1 <= j < after.len() implies (#[trigger] after[j]).0 > ack by {
        assert(chunks[j].0 > ack);
    }
    assert(after[0].0 == chunks[0].0);
    assert(l.chunks_in_order());
    assert(l.in_order());
    lemma_entries_from_push(s.sealed, 0, (s.write_first, s.write.file));
    lemma_entries_from_push(s.sealed, 0, (s.write_first, image));
    if s.write_first >= 1 {
        assert(parse(image, 0)->Found_0.idx() == first_before);
    }
}

/// The chunks that a log in order leaves behind begin at ascending
/// indices, so that opening them finds them in their order.
pub proof fn lemma_closed_ordered(s: LogState)
    requires
        s.in_order(),
    ensures
        ordered(s.closed()) == s.closed(),
{
    let chunks = s.chunks();
    let closed = s.closed();
    assert forall|i: int, j: int| 0 <= i < j < closed.len() implies closed[i].0 < closed[j].0 by {
        assert(chunks[i].0 < chunks[j].0);
    }
    lemma_ordered_ascending(closed);
}

/// In a log in order, the pending entries have the indices that follow
/// the index that reading has come to, one by one.
pub proof fn lemma_pending_indices(s: LogState)
    requires
        s.in_order(),
    ensures
        s.pending().len() == s.write.next_idx_to_write - 1 - s.read_level(),
        forall|k: int|
            0 <= k < s.pending().len() ==> (#[trigger] s.pending()[k]).0 == s.read_level() + 1 + k,
{
    lemma_pending(s);
    let all = s.all_entries();
    let gone = s.read_level() - s.first_before();
    assert forall|k: int| 0 <= k < s.pending().len() implies (#[trigger] s.pending()[k]).0
        == s.read_level() + 1 + k by {
        assert(s.pending()[k] == all[k + gone]);
    }
}

/// An empty log that is closed opens to an empty log in order.
pub proof fn lemma_reopened_empty(s: LogState)
    requires
        s.in_order(),
        s.write.file.len() == 0,
    ensures
        s.reopened() is Ok,
        s.reopened()->Ok_0.in_order(),
        s.reopened()->Ok_0.chunks() == s.chunks(),
        s.reopened()->Ok_0.write.ack_idx == s.write.ack_idx,
        s.reopened()->Ok_0.write.next_idx_to_write == s.write.next_idx_to_write,
        s.reopened()->Ok_0.read_level() == 0,
        s.write.ack_idx == 0,
        s.first_before() == 0,
{
    lemma_closed_ordered(s);
    lemma_read_idx(s);
    lemma_ack_below_write(s);
    let closed = s.closed();
    assert(s.write.file =~= Seq::<u8>::empty());
    assert(s.write.closed() =~= Seq::<u8>::empty());
    assert(closed =~= seq![(0u64, Seq::<u8>::empty())]);
    assert(closed.last() == (0u64, Seq::<u8>::empty()));
    assert(closed.drop_last() =~= Seq::empty());
    let none = Seq::<u8>::empty();
    assert(parse(none, 0) is End);
    let t = s.reopened()->Ok_0;
    assert(t.write.file =~= none);
    assert(t.chunks() =~= s.chunks());
    assert(chunk_in_order(s.chunks(), 0, s.write.next_idx_to_write, 0));
    assert(chunk_in_order(t.chunks(), 0, t.write.next_idx_to_write, 0));
    assert(passes(none, 0, 0, 0, 0));
    lemma_level(none, 0, 0, 0, 0);
    assert(t.chunks_in_order());
}

/// The chunks that a log in order leaves behind, where the last of them
/// is not empty, open to the log that seeks the read index of the last
/// chunk.
pub proof fn lemma_reopened_seeks(s: LogState)
    requires
        s.in_order(),
        s.write.file.len() + 32 <= u64::MAX,
        s.write.file.len() > 0,
    ensures
        FileState::opened(s.write.closed()) is Ok,
        s.reopened() == match s.resumed().sought(s.resumed().write.next_idx_to_read).1 {
            Some(e) => Err::<LogState, Error>(e),
            None => Ok::<LogState, Error>(
                s.resumed().sought(s.resumed().write.next_idx_to_read).0,
            ),
        },
{
    lemma_closed_ordered(s);
    lemma_closed_chunk(s);
    lemma_ack_below_write(s);
    lemma_opened_in_order(s.write.closed(), s.write_before(), s.write.ack_idx as int);
    let closed = s.closed();
    assert(closed.last() == (s.write_first, s.write.closed()));
    assert(closed.drop_last() =~= s.sealed);
}

/// The chunks that a log in order leaves behind, where the last of them
/// is not empty, open to a log in order with the same entries, the same
/// acknowledged index and the same index to write next. Reading has come
/// to the entry before the read index of the last chunk, which lies above
/// the acknowledged index.
pub proof fn lemma_reopened_full(s: LogState)
    requires
        s.in_order(),
        s.write.file.len() + 32 <= u64::MAX,
        s.write.file.len() > 0,
    ensures
        s.reopened() is Ok,
        s.reopened()->Ok_0.in_order(),
        s.reopened()->Ok_0.all_entries() == s.all_entries(),
        s.reopened()->Ok_0.first_before() == s.first_before(),
        s.reopened()->Ok_0.write.ack_idx == s.write.ack_idx,
        s.reopened()->Ok_0.write.next_idx_to_write == s.write.next_idx_to_write,
        s.reopened()->Ok_0.read_level() == later(
            s.resumed().write.next_idx_to_read - 1,
            s.first_before(),
        ),
        s.reopened()->Ok_0.read_idx() == s.resumed().write.next_idx_to_read,
        s.resumed().write.next_idx_to_read > s.write.ack_idx,
        s.write.ack_idx + 1 >= s.write_before() ==> s.resumed().write.next_idx_to_read
            == s.write.ack_idx + 1,
        s.first_before() <= s.write.ack_idx,
{
    lemma_resumed_in_order(s);
    lemma_reopened_seeks(s);
    let l = s.resumed();
    lemma_seek_in_order(l, l.write.next_idx_to_read);
}

/// The log that the chunks of a log in order open to has the chunks that
/// were left behind.
#[verifier::rlimit(50)]
pub proof fn lemma_reopened_chunks(s: LogState)
    requires
        s.in_order(),
        s.write.file.len() + 32 <= u64::MAX,
        s.write.file.len() > 0,
    ensures
        s.reopened() is Ok,
        s.reopened()->Ok_0.sealed == s.sealed,
        s.reopened()->Ok_0.write.file == s.write.closed(),
{
    lemma_resumed_in_order(s);
    lemma_reopened_seeks(s);
    let l = s.resumed();
    lemma_seek_in_order(l, l.write.next_idx_to_read);
    let idx = l.write.next_idx_to_read;
    assert(l.sought(idx).0.sealed == l.sealed);
    assert(l.sought(idx).0.write.file == l.write.file);
}

/// The chunks that a log in order leaves behind open to a log in order
/// with the same entries, the same acknowledged index and the same index
/// to write next. No entry at or below the acknowledged index is pending
/// in it.
pub proof fn lemma_reopened_in_order(s: LogState)
    requires
        s.in_order(),
        s.write.file.len() + 32 <= u64::MAX,
    ensures
        s.reopened() is Ok,
        s.reopened()->Ok_0.in_order(),
        s.reopened()->Ok_0.all_entries() == s.all_entries(),
        s.reopened()->Ok_0.first_before() == s.first_before(),
        s.reopened()->Ok_0.write.ack_idx == s.write.ack_idx,
        s.reopened()->Ok_0.write.next_idx_to_write == s.write.next_idx_to_write,
        s.reopened()->Ok_0.read_level() >= s.write.ack_idx,
        forall|k: int|
            0 <= k < s.reopened()->Ok_0.pending().len() ==> (
            #[trigger] s.reopened()->Ok_0.pending()[k]).0 > s.write.ack_idx,
{
    if s.write.file.len() == 0 {
        lemma_reopened_empty(s);
    } else {
        lemma_reopened_full(s);
    }
    lemma_pending_indices(s.reopened()->Ok_0);
}

/// Where no entry that is not acknowledged lies more than one entry
/// before the last chunk, the chunks that a log in order leaves behind
/// open to a log in which exactly the entries above the acknowledged index
/// are pending, and whose read index is the index behind the acknowledged
/// one.
pub proof fn lemma_reopened_pending(s: LogState)
    requires
        s.in_order(),
        s.write.file.len() + 32 <= u64::MAX,
        s.write.ack_idx + 1 >= s.write_before(),
    ensures
        s.reopened() is Ok,
        s.reopened()->Ok_0.pending() == s.all_entries().skip(
            s.write.ack_idx - s.first_before(),
        ),
        s.write.file.len() > 0 ==> s.reopened()->Ok_0.read_idx() == s.write.ack_idx + 1,
{
    if s.write.file.len() == 0 {
        lemma_reopened_empty(s);
    } else {
        lemma_reopened_full(s);
    }
    lemma_pending(s.reopened()->Ok_0);
}

/// The files that a log in order leaves behind are chunk files, and
/// opening them gives the log that its chunks open to.
pub proof fn lemma_close_then_open(s: LogState, files: Seq<(String, Vec<u8>)>)
    requires
        s.in_order(),
        names_of(files, s.closed()),
    ensures
        all_chunks(named(files)),
        LogState::opened(ordered(listed(named(files))), s.chunk_size, s.max_chunks)
            == s.reopened(),
{
    lemma_names_listed(files, s.closed());
}

} // verus!
