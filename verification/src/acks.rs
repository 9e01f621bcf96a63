use crate::chain::{chain, step};
use crate::log::{lemma_reclaimable, reclaimable, LogState};
use crate::order::{before, chunk_in_order, lemma_ack_below_write, lemma_pop_in_order};
use crate::record::{
    lemma_frame_len, lemma_parse_extend, lemma_parse_found, lemma_parse_frame, parse, Parsed,
    Record,
};
use crate::recovery::{
    lemma_reopened_chunks, lemma_reopened_empty, lemma_reopened_full, lemma_reopened_in_order,
};
use vstd::prelude::*;

verus! {

/// Whether the acknowledged indices that the records of a chunk name from
/// `at` on do not descend, and begin at `floor` or above.
pub open spec fn ascend(bytes: Seq<u8>, at: int, floor: int) -> bool
    decreases bytes.len() - at,
{
    match parse(bytes, at) {
        Parsed::Found(rec) => floor <= rec.ack_idx() && ascend(
            bytes,
            at + rec.size(),
            rec.ack_idx() as int,
        ),
        _ => true,
    }
}

/// The acknowledged index that the last record of a chunk names; `floor`
/// where the chunk holds no record from `at` on.
pub open spec fn last_ack(bytes: Seq<u8>, at: int, floor: int) -> int
    decreases bytes.len() - at,
{
    match parse(bytes, at) {
        Parsed::Found(rec) => last_ack(bytes, at + rec.size(), rec.ack_idx() as int),
        _ => floor,
    }
}

/// In a chunk in order, the last acknowledged index that is named lies at
/// or below the acknowledged index of the log.
pub proof fn lemma_last_ack_bound(bytes: Seq<u8>, at: int, last: int, ack: int, floor: int)
    requires
        chain(bytes, at, last, ack),
        floor <= ack,
        0 <= at,
    ensures
        last_ack(bytes, at, floor) <= ack,
    decreases bytes.len() - at,
{
    if at != bytes.len() {
        let here = parse(bytes, at)->Found_0;
        lemma_parse_found(bytes, at);
        lemma_last_ack_bound(bytes, at + here.size(), step(last, here), ack, here.ack_idx() as int);
    } else {
        assert(parse(bytes, at) is End);
    }
}

/// The acknowledged indices of a chunk in order still ascend when a record
/// is written behind it that names the last of them or more.
pub proof fn lemma_ascend_append(
    bytes: Seq<u8>,
    at: int,
    last: int,
    ack: int,
    floor: int,
    rec: Record,
)
    requires
        chain(bytes, at, last, ack),
        ascend(bytes, at, floor),
        0 <= at <= bytes.len(),
        rec.valid(),
        last_ack(bytes, at, floor) <= rec.ack_idx(),
    ensures
        ascend(bytes + rec.frame(), at, floor),
        last_ack(bytes + rec.frame(), at, floor) == rec.ack_idx(),
    decreases bytes.len() - at,
{
    let longer = bytes + rec.frame();
    lemma_frame_len(rec);
    if at == bytes.len() {
        lemma_parse_frame(bytes, rec, Seq::empty());
        assert(bytes + rec.frame() + Seq::<u8>::empty() =~= longer);
        assert(parse(bytes, at) is End);
        assert(parse(longer, at + rec.size()) is End);
        assert(ascend(longer, at + rec.size(), rec.ack_idx() as int));
        assert(last_ack(longer, at + rec.size(), rec.ack_idx() as int) == rec.ack_idx());
    } else {
        let here = parse(bytes, at)->Found_0;
        lemma_parse_extend(bytes, rec.frame(), at);
        lemma_parse_found(bytes, at);
        lemma_ascend_append(
            bytes,
            at + here.size(),
            step(last, here),
            ack,
            here.ack_idx() as int,
            rec,
        );
    }
}

/// Acknowledged indices that ascend from a floor ascend from any lower
/// floor, and where the chunk holds a record, the last of them is the same.
pub proof fn lemma_ascend_lower(bytes: Seq<u8>, at: int, floor: int, lower: int)
    requires
        ascend(bytes, at, floor),
        lower <= floor,
    ensures
        ascend(bytes, at, lower),
        parse(bytes, at) is Found ==> last_ack(bytes, at, lower) == last_ack(bytes, at, floor),
{
}

/// Whether the acknowledged indices that the records of the chunks name,
/// from the chunk at `from` on and from one chunk to the next, do not
/// descend, and begin at `floor` or above.
pub open spec fn chunks_ascend(chunks: Seq<(u64, Seq<u8>)>, from: int, floor: int) -> bool
    decreases chunks.len() - from,
{
    if from < 0 || from >= chunks.len() {
        true
    } else {
        ascend(chunks[from].1, 0, floor) && chunks_ascend(
            chunks,
            from + 1,
            last_ack(chunks[from].1, 0, floor),
        )
    }
}

/// The acknowledged index that the last record of the chunks names;
/// `floor` where they hold no record.
pub open spec fn chunks_last_ack(chunks: Seq<(u64, Seq<u8>)>, from: int, floor: int) -> int
    decreases chunks.len() - from,
{
    if from < 0 || from >= chunks.len() {
        floor
    } else {
        chunks_last_ack(chunks, from + 1, last_ack(chunks[from].1, 0, floor))
    }
}

impl LogState {
    /// Whether the acknowledged indices that the records of the log name
    /// do not descend, through each chunk and from each chunk to the next.
    pub open spec fn acks_ascend(self) -> bool {
        &&& chunks_ascend(self.sealed, 0, 0)
        &&& ascend(self.write.file, 0, chunks_last_ack(self.sealed, 0, 0))
    }
}

/// Chunks whose acknowledged indices ascend still do so with one more
/// chunk behind them whose acknowledged indices ascend from the last of
/// theirs.
pub proof fn lemma_chunks_ascend_push(
    chunks: Seq<(u64, Seq<u8>)>,
    from: int,
    floor: int,
    chunk: (u64, Seq<u8>),
)
    requires
        0 <= from <= chunks.len(),
        chunks_ascend(chunks, from, floor),
        ascend(chunk.1, 0, chunks_last_ack(chunks, from, floor)),
    ensures
        chunks_ascend(chunks.push(chunk), from, floor),
        chunks_last_ack(chunks.push(chunk), from, floor) == last_ack(
            chunk.1,
            0,
            chunks_last_ack(chunks, from, floor),
        ),
    decreases chunks.len() - from,
{
    let longer = chunks.push(chunk);
    if from < chunks.len() {
        assert(longer[from] == chunks[from]);
        lemma_chunks_ascend_push(chunks, from + 1, last_ack(chunks[from].1, 0, floor), chunk);
    } else {
        assert(longer[from] == chunk);
        assert(chunks_ascend(longer, from + 1, last_ack(chunk.1, 0, floor)));
        assert(chunks_last_ack(longer, from + 1, last_ack(chunk.1, 0, floor)) == last_ack(
            chunk.1,
            0,
            floor,
        ));
    }
}

/// Chunks whose acknowledged indices ascend still do so without the
/// chunks before a position, where each chunk holds a record; and the last
/// of the indices stays the same where a chunk is left.
pub proof fn lemma_chunks_ascend_kept(
    chunks: Seq<(u64, Seq<u8>)>,
    from: int,
    floor: int,
    gone: int,
)
    requires
        0 <= from <= gone <= chunks.len(),
        chunks_ascend(chunks, from, floor),
        0 <= floor,
        forall|j: int| 0 <= j < chunks.len() ==> parse((#[trigger] chunks[j]).1, 0) is Found,
    ensures
        chunks_ascend(chunks.subrange(gone, chunks.len() as int), 0, 0),
        0 <= chunks_last_ack(chunks.subrange(gone, chunks.len() as int), 0, 0)
            <= chunks_last_ack(chunks, from, floor),
        gone < chunks.len() ==> chunks_last_ack(chunks.subrange(gone, chunks.len() as int), 0, 0)
            == chunks_last_ack(chunks, from, floor),
    decreases chunks.len() - from,
{
    let kept = chunks.subrange(gone, chunks.len() as int);
    if from < gone {
        lemma_last_ack_floor(chunks[from].1, 0, floor);
        lemma_chunks_ascend_kept(chunks, from + 1, last_ack(chunks[from].1, 0, floor), gone);
    } else {
        lemma_chunks_ascend_shift(chunks, from, floor, gone, 0);
    }
}

/// The last acknowledged index that a chunk names does not lie below the
/// floor from which its acknowledged indices ascend.
pub proof fn lemma_last_ack_floor(bytes: Seq<u8>, at: int, floor: int)
    requires
        ascend(bytes, at, floor),
    ensures
        floor <= last_ack(bytes, at, floor),
    decreases bytes.len() - at,
{
    if parse(bytes, at) is Found {
        let here = parse(bytes, at)->Found_0;
        lemma_parse_found(bytes, at);
        lemma_last_ack_floor(bytes, at + here.size(), here.ack_idx() as int);
    }
}

/// The chunks from a position on, taken by themselves and from a lower
/// floor, have acknowledged indices that ascend as they do among all
/// chunks.
pub proof fn lemma_chunks_ascend_shift(
    chunks: Seq<(u64, Seq<u8>)>,
    from: int,
    floor: int,
    gone: int,
    lower: int,
)
    requires
        0 <= gone <= from <= chunks.len(),
        chunks_ascend(chunks, from, floor),
        0 <= lower <= floor,
        forall|j: int| 0 <= j < chunks.len() ==> parse((#[trigger] chunks[j]).1, 0) is Found,
    ensures
        chunks_ascend(chunks.subrange(gone, chunks.len() as int), from - gone, lower),
        lower <= chunks_last_ack(chunks.subrange(gone, chunks.len() as int), from - gone, lower)
            <= chunks_last_ack(chunks, from, floor),
        from < chunks.len() ==> chunks_last_ack(
            chunks.subrange(gone, chunks.len() as int),
            from - gone,
            lower,
        ) == chunks_last_ack(chunks, from, floor),
    decreases chunks.len() - from,
{
    let kept = chunks.subrange(gone, chunks.len() as int);
    if from < chunks.len() {
        assert(kept[from - gone] == chunks[from]);
        assert(parse(chunks[from].1, 0) is Found);
        lemma_ascend_lower(chunks[from].1, 0, floor, lower);
        lemma_last_ack_floor(chunks[from].1, 0, floor);
        let next = last_ack(chunks[from].1, 0, floor);
        lemma_chunks_ascend_shift(chunks, from + 1, next, gone, next);
    }
}

/// In an empty log the acknowledged indices ascend.
pub proof fn lemma_acks_empty(chunk_size: u64, max_chunks: usize)
    ensures
        LogState::opened(Seq::empty(), chunk_size, max_chunks)->Ok_0.acks_ascend(),
{
    assert(parse(Seq::<u8>::empty(), 0) is End);
}

/// The sealed chunks of a log in order hold a record each, and where the
/// acknowledged indices of the log ascend, the last of them lies at or
/// below the acknowledged index of the log.
pub proof fn lemma_acks_bound(s: LogState)
    requires
        s.in_order(),
        s.acks_ascend(),
    ensures
        forall|j: int| 0 <= j < s.sealed.len() ==> parse((#[trigger] s.sealed[j]).1, 0) is Found,
        0 <= chunks_last_ack(s.sealed, 0, 0) <= s.write.ack_idx,
        last_ack(s.write.file, 0, chunks_last_ack(s.sealed, 0, 0)) <= s.write.ack_idx,
{
    let chunks = s.chunks();
    let ack = s.write.ack_idx as int;
    assert forall|j: int| 0 <= j < s.sealed.len() implies parse(
        (#[trigger] s.sealed[j]).1,
        0,
    ) is Found by {
        assert(chunk_in_order(chunks, j, s.write.next_idx_to_write, ack));
        assert(chunks[j] == s.sealed[j]);
    }
    lemma_sealed_last_ack(s, 0, 0);
    let last = s.sealed.len() as int;
    assert(chunk_in_order(chunks, last, s.write.next_idx_to_write, ack));
    lemma_last_ack_bound(s.write.file, 0, s.write_before(), ack, chunks_last_ack(s.sealed, 0, 0));
}

/// In a log in order, the last acknowledged index that the sealed chunks
/// name from a position on lies at or below the acknowledged index of the
/// log, where the floor does.
pub proof fn lemma_sealed_last_ack(s: LogState, from: int, floor: int)
    requires
        s.in_order(),
        0 <= from <= s.sealed.len(),
        0 <= floor <= s.write.ack_idx,
        chunks_ascend(s.sealed, from, floor),
    ensures
        0 <= chunks_last_ack(s.sealed, from, floor) <= s.write.ack_idx,
    decreases s.sealed.len() - from,
{
    if from < s.sealed.len() {
        let chunks = s.chunks();
        let ack = s.write.ack_idx as int;
        assert(chunk_in_order(chunks, from, s.write.next_idx_to_write, ack));
        assert(chunks[from] == s.sealed[from]);
        lemma_last_ack_bound(s.sealed[from].1, 0, before(s.sealed[from].0), ack, floor);
        lemma_last_ack_floor(s.sealed[from].1, 0, floor);
        lemma_sealed_last_ack(s, from + 1, last_ack(s.sealed[from].1, 0, floor));
    }
}

/// In a log in order whose acknowledged indices ascend, they still ascend
/// after a push.
pub proof fn lemma_acks_pushed(s: LogState, data: Seq<u8>)
    requires
        s.in_order(),
        s.acks_ascend(),
        s.write.next_idx_to_write < u64::MAX,
        s.write.file.len() + 32 + data.len() <= u64::MAX,
    ensures
        s.pushed(data).acks_ascend(),
{
    let ack = s.write.ack_idx as int;
    let floor = chunks_last_ack(s.sealed, 0, 0);
    let rec = s.write.next_record(data);
    let w = s.written(data);
    lemma_acks_bound(s);
    lemma_ack_below_write(s);
    lemma_ascend_append(s.write.file, 0, s.write_before(), ack, floor, rec);
    if w.over_size() && !w.over_count() {
        let marker = w.write.successor().ack_record();
        lemma_chunks_ascend_push(s.sealed, 0, 0, (s.write_first, w.write.file));
        lemma_parse_frame(Seq::empty(), marker, Seq::empty());
        lemma_frame_len(marker);
        let file = w.rotated().write.file;
        assert(Seq::<u8>::empty() + marker.frame() + Seq::<u8>::empty() =~= file);
        assert(parse(file, 32) is End);
        assert(ascend(file, 32, ack));
        assert(w.rotated().sealed =~= s.sealed.push((s.write_first, w.write.file)));
    }
}

/// In a log in order whose acknowledged indices ascend, they still ascend
/// after an acknowledgement.
pub proof fn lemma_acks_acked(s: LogState, id: u64)
    requires
        s.in_order(),
        s.acks_ascend(),
        s.can_ack(id),
    ensures
        s.acked(id).acks_ascend(),
{
    let gone = reclaimable(s.chunks(), id) as int;
    lemma_reclaimable(s.chunks(), id);
    lemma_acks_bound(s);
    lemma_chunks_ascend_kept(s.sealed, 0, 0, gone);
    let kept = s.sealed.subrange(gone, s.sealed.len() as int);
    lemma_ascend_lower(
        s.write.file,
        0,
        chunks_last_ack(s.sealed, 0, 0),
        chunks_last_ack(kept, 0, 0),
    );
}

/// In a log in order whose acknowledged indices ascend, they still ascend
/// after a pop, a seek or a revert, which change no chunk.
pub proof fn lemma_acks_read(s: LogState, idx: u64)
    requires
        s.in_order(),
        s.acks_ascend(),
    ensures
        s.popped().0.acks_ascend(),
        s.sought(idx).0.acks_ascend(),
        s.reverted().0.acks_ascend(),
{
    lemma_pop_in_order(s);
    let t = s.popped().0;
    assert(t.chunks() == s.chunks());
    assert(t.sealed =~= t.chunks().drop_last());
    assert(s.sealed =~= s.chunks().drop_last());
    assert(t.chunks().last() == (t.write_first, t.write.file));
    assert(s.chunks().last() == (s.write_first, s.write.file));
    lemma_sought_chunks(s, idx);
    lemma_sought_chunks(s, (s.write.ack_idx + 1) as u64);
}

/// A seek changes no chunk.
pub proof fn lemma_sought_chunks(s: LogState, idx: u64)
    ensures
        s.sought(idx).0.sealed == s.sealed,
        s.sought(idx).0.write.file == s.write.file,
{
}

/// In a log in order whose acknowledged indices ascend, they still ascend
/// in the log that the chunks which it leaves behind open to.
#[verifier::rlimit(50)]
pub proof fn lemma_acks_reopened(s: LogState)
    requires
        s.in_order(),
        s.acks_ascend(),
        s.write.file.len() + 32 <= u64::MAX,
    ensures
        s.reopened() is Ok,
        s.reopened()->Ok_0.acks_ascend(),
{
    let ack = s.write.ack_idx as int;
    let floor = chunks_last_ack(s.sealed, 0, 0);
    lemma_reopened_in_order(s);
    lemma_acks_bound(s);
    lemma_ack_below_write(s);
    let t = s.reopened()->Ok_0;
    if s.write.file.len() == 0 {
        lemma_reopened_empty(s);
        assert(t.sealed =~= t.chunks().drop_last());
        assert(s.sealed =~= s.chunks().drop_last());
        assert(t.chunks().last() == (t.write_first, t.write.file));
        assert(s.chunks().last() == (s.write_first, s.write.file));
    } else {
        lemma_reopened_full(s);
        lemma_reopened_chunks(s);
        if s.write.ack_written != s.write.ack_idx {
            lemma_ascend_append(
                s.write.file,
                0,
                s.write_before(),
                ack,
                floor,
                s.write.ack_record(),
            );
        }
    }
}

} // verus!
